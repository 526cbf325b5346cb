//! The marks that a collection sets while it traces.
use crate::gcbox::Name;
use crate::home::Home;
use vstd::prelude::*;

verus! {

/// The calls of `trace` that have been made on objects of one arena, and the reports that were
/// made in them. Nothing is taken off these lists. An arena has one journal, from which it has
/// its home, and no call or report is made without it.
pub struct Journal {
    home: Home,
    calls: Ghost<Seq<Name>>,
    reports: Ghost<Seq<Name>>,
}

impl Journal {
    /// The names of the objects, in the order of the calls.
    pub closed spec fn calls(&self) -> Seq<Name> {
        self.calls@
    }

    /// The names that were reported, in order.
    pub closed spec fn reports(&self) -> Seq<Name> {
        self.reports@
    }

    /// The home of the arena.
    pub closed spec fn at(&self) -> usize {
        self.home@
    }

    /// The journal of a new arena.
    pub(crate) fn new() -> (r: Self)
        ensures
            r.calls() == Seq::<Name>::empty(),
            r.reports() == Seq::<Name>::empty(),
    {
        Journal { home: Home::new(), calls: Ghost(Seq::empty()), reports: Ghost(Seq::empty()) }
    }

    pub(crate) fn home(&self) -> (r: Home)
        ensures
            r@ == self.at(),
    {
        self.home.clone()
    }
}

/// Which objects of one arena have been marked in a collection, and the calls of `trace` that
/// were made. The boxes get their mark bits from here once all tracing is done.
pub struct Marks {
    home: usize,
    bits: Vec<bool>,
    journal: Option<Journal>,
    before: Ghost<Seq<Name>>,
    traced: Ghost<Seq<Name>>,
    reports_before: Ghost<Seq<Name>>,
    reports: Ghost<Seq<Name>>,
}

impl Marks {
    /// The names of the objects that have been traced, in the order of the calls.
    pub closed spec fn traced(&self) -> Seq<Name> {
        self.traced@
    }

    /// The names of the objects that have been marked, which are those that have been traced.
    pub open spec fn marked(&self) -> Set<Name> {
        self.traced().to_set()
    }

    /// The calls that the journal held when the collection began.
    pub closed spec fn before(&self) -> Seq<Name> {
        self.before@
    }

    /// The names that have been reported in the collection, in order.
    pub closed spec fn reports(&self) -> Seq<Name> {
        self.reports@
    }

    /// The reports that the journal held when the collection began.
    pub closed spec fn reports_before(&self) -> Seq<Name> {
        self.reports_before@
    }

    /// Whether the journal of the arena is here, and holds the calls and the reports of this
    /// collection after the earlier ones.
    pub closed spec fn open(&self) -> bool {
        &&& self.journal is Some
        &&& self.journal->0.at() == self.home
        &&& self.journal->0.calls() == self.before@ + self.traced@
        &&& self.journal->0.reports() == self.reports_before@ + self.reports@
    }

    /// Whether there is a bit for each of the `len` cells of the arena at `home`.
    pub closed spec fn covers(&self, home: usize, len: nat) -> bool {
        self.home == home && self.bits.len() == len
    }

    /// The bits are those of the objects that have been traced.
    pub closed spec fn wf(&self) -> bool {
        forall|n: Name| #[trigger]
            self.traced@.contains(n) <==> n.home == self.home && n.cell < self.bits.len()
                && self.bits@[n.cell as int]
    }

    /// No marks on the arena that `journal` is of, which has `len` cells.
    pub(crate) fn new(journal: Journal, len: usize) -> (r: Self)
        ensures
            r.wf(),
            r.open(),
            r.covers(journal.at(), len as nat),
            r.before() == journal.calls(),
            r.traced() == Seq::<Name>::empty(),
            r.reports_before() == journal.reports(),
            r.reports() == Seq::<Name>::empty(),
    {
        let mut bits: Vec<bool> = Vec::new();
        let mut i: usize = 0;
        while i < len
            invariant
                i <= len,
                bits.len() == i,
                forall|j: int| 0 <= j < i ==> !bits@[j],
            decreases len - i,
        {
            bits.push(false);
            i = i + 1;
        }
        let home: usize = journal.home.place();
        let ghost before = journal.calls@;
        let ghost reports_before = journal.reports@;
        assert(before + Seq::<Name>::empty() =~= before);
        assert(reports_before + Seq::<Name>::empty() =~= reports_before);
        Marks {
            home,
            bits,
            journal: Some(journal),
            before: Ghost(before),
            traced: Ghost(Seq::empty()),
            reports_before: Ghost(reports_before),
            reports: Ghost(Seq::empty()),
        }
    }

    /// Gives the journal back. No call can follow.
    pub(crate) fn close(&mut self) -> (r: Journal)
        requires
            old(self).wf(),
            old(self).open(),
        ensures
            final(self).wf(),
            forall|home: usize, len: nat| #[trigger]
                old(self).covers(home, len) ==> final(self).covers(home, len) && r.at() == home,
            final(self).traced() == old(self).traced(),
            r.calls() == old(self).before() + old(self).traced(),
            r.reports() == old(self).reports_before() + old(self).reports(),
    {
        let journal: Journal = self.journal.take().unwrap();
        assert forall|n: Name| #[trigger]
            self.traced@.contains(n) <==> n.home == self.home && n.cell < self.bits.len()
                && self.bits@[n.cell as int] by {
            assert(old(self).traced@.contains(n) == self.traced@.contains(n));
        }
        journal
    }

    /// Whether the object named `id` has been marked.
    pub(crate) fn has(&self, id: Name) -> (r: bool)
        requires
            self.wf(),
            exists|len: nat| #[trigger] self.covers(id.home, len) && id.cell < len,
        ensures
            r == self.marked().contains(id),
    {
        assert(self.traced@.contains(id) <==> self.bits@[id.cell as int]);
        id.home == self.home && self.bits[id.cell]
    }

    /// Marks the object named `id`, which is about to be traced, and writes the call down.
    pub(super) fn set(&mut self, id: Name)
        requires
            old(self).wf(),
            old(self).open(),
            exists|len: nat| #[trigger] old(self).covers(id.home, len) && id.cell < len,
        ensures
            final(self).wf(),
            final(self).open(),
            forall|home: usize, len: nat| #[trigger]
                old(self).covers(home, len) ==> final(self).covers(home, len),
            final(self).before() == old(self).before(),
            final(self).reports_before() == old(self).reports_before(),
            final(self).reports() == old(self).reports(),
            final(self).traced() == old(self).traced().push(id),
            final(self).marked() == old(self).marked().insert(id),
    {
        self.bits[id.cell] = true;
        let mut journal: Journal = self.journal.take().unwrap();
        proof {
            journal.calls@ = journal.calls@.push(id);
        }
        self.journal = Some(journal);
        proof {
            let before = self.traced@;
            assert((self.before@ + before).push(id) =~= self.before@ + before.push(id));
            self.traced@ = before.push(id);
            assert forall|n: Name| #[trigger]
                before.push(id).contains(n) <==> before.contains(n) || n == id by {
                assert(before.push(id)[before.len() as int] == id);
                if before.contains(n) {
                    assert(before.push(id)[before.index_of(n)] == n);
                }
                if before.push(id).contains(n) && n != id {
                    assert(before[before.push(id).index_of(n)] == n);
                }
            }
            assert(self.marked() =~= old(self).marked().insert(id));
        }
    }

    /// Writes down that `id` has been reported.
    pub(super) fn report(&mut self, id: Name)
        requires
            old(self).wf(),
            old(self).open(),
        ensures
            final(self).wf(),
            final(self).open(),
            forall|home: usize, len: nat| #[trigger]
                old(self).covers(home, len) ==> final(self).covers(home, len),
            final(self).before() == old(self).before(),
            final(self).traced() == old(self).traced(),
            final(self).reports_before() == old(self).reports_before(),
            final(self).reports() == old(self).reports().push(id),
    {
        let mut journal: Journal = self.journal.take().unwrap();
        proof {
            journal.reports@ = journal.reports@.push(id);
        }
        self.journal = Some(journal);
        proof {
            let reports = self.reports@;
            self.reports@ = reports.push(id);
            assert((self.reports_before@ + reports).push(id) =~= self.reports_before@
                + reports.push(id));
            assert forall|n: Name| #[trigger]
                self.traced@.contains(n) <==> n.home == self.home && n.cell < self.bits.len()
                    && self.bits@[n.cell as int] by {
                assert(old(self).traced@.contains(n) == self.traced@.contains(n));
            }
        }
    }

    /// Takes the marks, and leaves none.
    pub(crate) fn take(&mut self) -> (r: Self)
        ensures
            r == *old(self),
    {
        let mut taken = Marks {
            home: self.home,
            bits: Vec::new(),
            journal: None,
            before: Ghost(Seq::empty()),
            traced: Ghost(Seq::empty()),
            reports_before: Ghost(Seq::empty()),
            reports: Ghost(Seq::empty()),
        };
        std::mem::swap(&mut taken, self);
        taken
    }
}

} // verus!
