//! The alias table: an ordered mapping from an address to its list of
//! distinct names, in first-seen order.

use crate::text::token_seq;
use vstd::prelude::*;

verus! {

/// Mathematical model of one table entry.
#[verifier::ext_equal]
pub ghost struct EntryModel {
    pub address: Seq<char>,
    pub names: Seq<Seq<char>>,
}

/// One line's worth of data: an address and the names it resolves to.
#[derive(Debug, Clone, PartialEq, Eq)]
pub struct AliasEntry {
    pub address: String,
    pub names: Vec<String>,
}

impl View for AliasEntry {
    type V = EntryModel;

    open spec fn view(&self) -> EntryModel {
        EntryModel { address: self.address@, names: self.names.deep_view() }
    }
}

impl DeepView for AliasEntry {
    type V = EntryModel;

    open spec fn deep_view(&self) -> EntryModel {
        self.view()
    }
}

/// Index of the entry whose address is `a`, or `-1` if there is none.
pub open spec fn index_of_addr(t: Seq<EntryModel>, a: Seq<char>) -> int
    decreases t.len(),
{
    if t.len() == 0 {
        -1
    } else if t[0].address == a {
        0
    } else {
        let r = index_of_addr(t.drop_first(), a);
        if r == -1 {
            -1
        } else {
            r + 1
        }
    }
}

/// The table holds an entry for address `a`.
pub open spec fn has_addr(t: Seq<EntryModel>, a: Seq<char>) -> bool {
    index_of_addr(t, a) >= 0
}

/// The table holds `n` among the names of address `a`.
pub open spec fn has_name(t: Seq<EntryModel>, a: Seq<char>, n: Seq<char>) -> bool {
    has_addr(t, a) && t[index_of_addr(t, a)].names.contains(n)
}

/// Result of recording one (address, name) pair: a new entry is appended for
/// an unknown address, an unknown name is appended to its entry, and a pair
/// already present leaves the table unchanged.
pub open spec fn add_name_spec(t: Seq<EntryModel>, a: Seq<char>, n: Seq<char>) -> Seq<EntryModel> {
    let i = index_of_addr(t, a);
    if i == -1 {
        t.push(EntryModel { address: a, names: seq![n] })
    } else if t[i].names.contains(n) {
        t
    } else {
        t.update(i, EntryModel { address: a, names: t[i].names.push(n) })
    }
}

/// Result of recording each of `ns` in turn under address `a`.
pub open spec fn add_names_spec(t: Seq<EntryModel>, a: Seq<char>, ns: Seq<Seq<char>>) -> Seq<
    EntryModel,
>
    decreases ns.len(),
{
    if ns.len() == 0 {
        t
    } else {
        add_name_spec(add_names_spec(t, a, ns.drop_last()), a, ns.last())
    }
}

/// No string occurs twice in `ns`.
pub open spec fn names_distinct(ns: Seq<Seq<char>>) -> bool {
    forall|p: int, q: int| 0 <= p < q < ns.len() ==> ns[p] != ns[q]
}

/// The table invariant: addresses are pairwise distinct and no entry lists
/// the same name twice.
pub open spec fn table_wf(t: Seq<EntryModel>) -> bool {
    &&& forall|i: int, j: int| 0 <= i < j < t.len() ==> t[i].address != t[j].address
    &&& forall|i: int| 0 <= i < t.len() ==> names_distinct(#[trigger] t[i].names)
}

/// Every address and name is a whitespace-free token and every entry has at
/// least one name.  Tables built by this library satisfy it.
pub open spec fn table_clean(t: Seq<EntryModel>) -> bool {
    forall|i: int|
        0 <= i < t.len() ==> {
            &&& token_seq(#[trigger] t[i].address)
            &&& t[i].names.len() > 0
            &&& forall|j: int| 0 <= j < t[i].names.len() ==> token_seq(#[trigger] t[i].names[j])
        }
}

/// No address begins with the comment character, so every serialized entry
/// line survives a re-parse.
pub open spec fn no_comment_addrs(t: Seq<EntryModel>) -> bool {
    forall|i: int|
        0 <= i < t.len() ==> (#[trigger] t[i].address).len() > 0 && t[i].address[0] != '#'
}

/// Recording a list of distinct names under a fresh address appends exactly
/// one entry holding that list.
pub proof fn lemma_add_names_fresh(acc: Seq<EntryModel>, a: Seq<char>, ns: Seq<Seq<char>>)
    requires
        index_of_addr(acc, a) == -1,
        ns.len() >= 1,
        names_distinct(ns),
    ensures
        add_names_spec(acc, a, ns) == acc.push(EntryModel { address: a, names: ns }),
    decreases ns.len(),
{
    lemma_index_of_addr(acc, a);
    if ns.len() == 1 {
        assert(add_names_spec(acc, a, ns.drop_last()) == acc);
        assert(add_name_spec(acc, a, ns.last()) == acc.push(
            EntryModel { address: a, names: seq![ns.last()] },
        ));
        assert(seq![ns.last()] =~= ns);
    } else {
        let dl = ns.drop_last();
        assert(names_distinct(dl)) by {
            assert forall|p: int, q: int| 0 <= p < q < dl.len() implies dl[p] != dl[q] by {
                assert(dl[p] == ns[p]);
                assert(dl[q] == ns[q]);
            }
        }
        lemma_add_names_fresh(acc, a, dl);
        let mid = acc.push(EntryModel { address: a, names: dl });
        assert forall|j: int| 0 <= j < acc.len() implies mid[j].address != a by {
            assert(mid[j] == acc[j]);
        }
        lemma_index_of_addr_is(mid, a, acc.len() as int);
        let i = acc.len() as int;
        assert(mid[i].names == dl);
        if dl.contains(ns.last()) {
            let q = choose|q: int| 0 <= q < dl.len() && dl[q] == ns.last();
            assert(ns[q] == ns[ns.len() - 1]);
            assert(false);
        }
        assert(add_name_spec(mid, a, ns.last()) == mid.update(
            i,
            EntryModel { address: a, names: dl.push(ns.last()) },
        ));
        assert(dl.push(ns.last()) =~= ns);
        assert(mid.update(i, EntryModel { address: a, names: ns }) =~= acc.push(
            EntryModel { address: a, names: ns },
        ));
    }
}

/// `index_of_addr` returns the position of the first entry for `a`, and `-1`
/// exactly when no entry has address `a`.
pub proof fn lemma_index_of_addr(t: Seq<EntryModel>, a: Seq<char>)
    ensures
        -1 <= index_of_addr(t, a) < t.len(),
        index_of_addr(t, a) >= 0 ==> t[index_of_addr(t, a)].address == a,
        index_of_addr(t, a) >= 0 ==> forall|j: int|
            0 <= j < index_of_addr(t, a) ==> t[j].address != a,
        index_of_addr(t, a) == -1 ==> forall|j: int| 0 <= j < t.len() ==> t[j].address != a,
    decreases t.len(),
{
    if t.len() == 0 {
    } else if t[0].address == a {
    } else {
        lemma_index_of_addr(t.drop_first(), a);
        if index_of_addr(t.drop_first(), a) >= 0 {
            assert forall|j: int| 0 <= j < index_of_addr(t, a) implies t[j].address != a by {
                if j > 0 {
                    assert(t.drop_first()[j - 1] == t[j]);
                }
            }
        } else {
            assert forall|j: int| 0 <= j < t.len() implies t[j].address != a by {
                if j > 0 {
                    assert(t.drop_first()[j - 1] == t[j]);
                }
            }
        }
    }
}

/// `index_of_addr` is whatever index a linear search stops at.
pub proof fn lemma_index_of_addr_is(t: Seq<EntryModel>, a: Seq<char>, i: int)
    requires
        0 <= i <= t.len(),
        forall|j: int| 0 <= j < i ==> t[j].address != a,
        i < t.len() ==> t[i].address == a,
    ensures
        i < t.len() ==> index_of_addr(t, a) == i,
        i == t.len() ==> index_of_addr(t, a) == -1,
    decreases t.len(),
{
    if t.len() == 0 {
    } else if t[0].address == a {
        assert(i == 0);
    } else {
        assert(i >= 1);
        assert(forall|j: int| 0 <= j < t.drop_first().len() ==> t.drop_first()[j] == t[j + 1]);
        lemma_index_of_addr_is(t.drop_first(), a, i - 1);
    }
}

/// Recording a pair preserves the table invariant, keeps cleanliness when the
/// pair is itself clean, and makes the pair present.
pub proof fn lemma_add_name_wf(t: Seq<EntryModel>, a: Seq<char>, n: Seq<char>)
    requires
        table_wf(t),
    ensures
        table_wf(add_name_spec(t, a, n)),
        table_clean(t) && token_seq(a) && token_seq(n) ==> table_clean(add_name_spec(t, a, n)),
        no_comment_addrs(t) && a.len() > 0 && a[0] != '#' ==> no_comment_addrs(
            add_name_spec(t, a, n),
        ),
        has_name(add_name_spec(t, a, n), a, n),
{
    lemma_index_of_addr(t, a);
    let i = index_of_addr(t, a);
    let t2 = add_name_spec(t, a, n);
    if i == -1 {
        assert forall|j: int| 0 <= j < t.len() implies t2[j].address != a by {
            assert(t2[j] == t[j]);
        }
        lemma_index_of_addr_is(t2, a, t.len() as int);
        assert(t2[t.len() as int].names[0] == n);
    } else if t[i].names.contains(n) {
    } else {
        assert forall|j: int| 0 <= j < i implies t2[j].address != a by {
            assert(t2[j] == t[j]);
        }
        lemma_index_of_addr_is(t2, a, i);
        assert(t2[i].names.len() == t[i].names.len() + 1);
        assert(names_distinct(t2[i].names)) by {
            assert(forall|p: int|
                0 <= p < t[i].names.len() ==> t2[i].names[p] == #[trigger] t[i].names[p]);
        }
        assert(t2[i].names.contains(n)) by {
            assert(t2[i].names.last() == n);
        }
    }
}

/// The alias table.  The entries appear in the order their addresses were
/// first recorded, and the operations maintain [`table_wf`].
#[derive(Debug, Clone, PartialEq, Eq)]
pub struct AliasTable {
    pub entries: Vec<AliasEntry>,
}

impl View for AliasTable {
    type V = Seq<EntryModel>;

    open spec fn view(&self) -> Seq<EntryModel> {
        self.entries.deep_view()
    }
}

impl AliasTable {
    /// The empty table.
    pub fn new() -> (t: AliasTable)
        ensures
            t@ == Seq::<EntryModel>::empty(),
            table_wf(t@),
            table_clean(t@),
    {
        let t = AliasTable { entries: Vec::new() };
        proof {
            assert(t@ =~= Seq::<EntryModel>::empty());
        }
        t
    }

    /// Number of addresses in the table.
    pub fn len(&self) -> (n: usize)
        ensures
            n == self@.len(),
    {
        self.entries.len()
    }

    /// The entry at position `i`, in insertion order.
    pub fn entry_at(&self, i: usize) -> (e: &AliasEntry)
        requires
            i < self@.len(),
        ensures
            e@ == self@[i as int],
    {
        &self.entries[i]
    }

    /// Position of the entry for `addr`, if the table has one.
    pub fn find_addr(&self, addr: &String) -> (r: Option<usize>)
        ensures
            match r {
                Some(i) => i == index_of_addr(self@, addr@) && i < self@.len(),
                None => index_of_addr(self@, addr@) == -1,
            },
    {
        let n = self.entries.len();
        let mut i: usize = 0;
        while i < n
            invariant
                i <= n,
                n == self@.len(),
                self@.len() == self.entries@.len(),
                forall|j: int| 0 <= j < i ==> self@[j].address != addr@,
            decreases n - i,
        {
            if self.entries[i].address == *addr {
                proof {
                    lemma_index_of_addr_is(self@, addr@, i as int);
                }
                return Some(i);
            }
            i = i + 1;
        }
        proof {
            lemma_index_of_addr_is(self@, addr@, n as int);
        }
        None
    }

    /// The names recorded for `addr`, if any.
    pub fn lookup(&self, addr: &String) -> (r: Option<&Vec<String>>)
        ensures
            match r {
                Some(ns) => has_addr(self@, addr@) && ns.deep_view() == self@[index_of_addr(
                    self@,
                    addr@,
                )].names,
                None => !has_addr(self@, addr@),
            },
    {
        match self.find_addr(addr) {
            Some(i) => Some(&self.entries[i].names),
            None => None,
        }
    }

    /// Records the pair (`addr`, `name`): appends a new entry for an unknown
    /// address, appends an unknown name to the address's entry, and leaves
    /// the table unchanged when the entry already lists the name.
    pub fn add_name(&mut self, addr: &String, name: &String)
        requires
            table_wf(old(self)@),
        ensures
            final(self)@ == add_name_spec(old(self)@, addr@, name@),
            table_wf(final(self)@),
            table_clean(old(self)@) && token_seq(addr@) && token_seq(name@) ==> table_clean(
                final(self)@,
            ),
            no_comment_addrs(old(self)@) && addr@.len() > 0 && addr@[0] != '#'
                ==> no_comment_addrs(final(self)@),
    {
        proof {
            lemma_index_of_addr(old(self)@, addr@);
            lemma_add_name_wf(old(self)@, addr@, name@);
        }
        match self.find_addr(addr) {
            None => {
                let entry = AliasEntry { address: addr.clone(), names: vec![name.clone()] };
                proof {
                    assert(entry@.names =~= seq![name@]);
                }
                self.entries.push(entry);
                proof {
                    assert(self@ =~= add_name_spec(old(self)@, addr@, name@));
                }
            },
            Some(i) => {
                let mut contained = false;
                let names_len = self.entries[i].names.len();
                let mut j: usize = 0;
                while j < names_len
                    invariant
                        j <= names_len,
                        i < self.entries@.len(),
                        names_len == self.entries@[i as int].names@.len(),
                        self@ == old(self)@,
                        contained ==> self@[i as int].names.contains(name@),
                        !contained ==> forall|q: int|
                            0 <= q < j ==> self@[i as int].names[q] != name@,
                    decreases names_len - j,
                {
                    if self.entries[i].names[j] == *name {
                        contained = true;
                        proof {
                            assert(self@[i as int].names[j as int] == name@);
                        }
                    }
                    j = j + 1;
                }
                if !contained {
                    proof {
                        if self@[i as int].names.contains(name@) {
                            let q = choose|q: int|
                                0 <= q < self@[i as int].names.len() && self@[i as int].names[q]
                                    == name@;
                            assert(false);
                        }
                    }
                    let old_entry = &self.entries[i];
                    let mut new_names = old_entry.names.clone();
                    let new_addr = old_entry.address.clone();
                    new_names.push(name.clone());
                    proof {
                        assert(new_names.deep_view() =~= old(self)@[i as int].names.push(name@));
                        assert(new_addr@ == old(self)@[i as int].address);
                        assert(old(self)@[i as int].address == addr@);
                    }
                    self.entries.set(i, AliasEntry { address: new_addr, names: new_names });
                    proof {
                        assert(self@ =~= add_name_spec(old(self)@, addr@, name@));
                    }
                }
            },
        }
    }
}

} // verus!
