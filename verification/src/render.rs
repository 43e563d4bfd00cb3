//! Serializing an [`AliasTable`]: the two loopback lines come first (IPv4
//! before IPv6, synthesized with a default name when absent), every other
//! entry follows in table order, and the address column is padded with
//! spaces to the width of the widest address written.

use crate::table::{index_of_addr, table_wf, AliasTable, EntryModel};
use vstd::prelude::*;
use vstd::string::*;

verus! {

/// The IPv4 loopback address.
pub open spec fn lb4() -> Seq<char> {
    "127.0.0.1"@
}

/// The IPv6 loopback address.
pub open spec fn lb6() -> Seq<char> {
    "::1"@
}

/// The name a missing loopback entry is synthesized with.
pub open spec fn default_name() -> Seq<char> {
    "localhost"@
}

/// The larger of two lengths.
pub open spec fn max_nat(a: nat, b: nat) -> nat {
    if a >= b {
        a
    } else {
        b
    }
}

/// `n` spaces.
pub open spec fn spaces(n: nat) -> Seq<char>
    decreases n,
{
    if n == 0 {
        Seq::empty()
    } else {
        spaces((n - 1) as nat).push(' ')
    }
}

/// `a` padded with spaces on the right to width `w` (unchanged when wider).
pub open spec fn pad_to(a: Seq<char>, w: nat) -> Seq<char> {
    if a.len() >= w {
        a
    } else {
        a + spaces((w - a.len()) as nat)
    }
}

/// The names joined by single spaces.
pub open spec fn join_names(ns: Seq<Seq<char>>) -> Seq<char>
    decreases ns.len(),
{
    if ns.len() == 0 {
        Seq::empty()
    } else if ns.len() == 1 {
        ns[0]
    } else {
        ns[0] + seq![' '] + join_names(ns.drop_first())
    }
}

/// One serialized line: the padded address, one space, the joined names.
pub open spec fn line_for(a: Seq<char>, ns: Seq<Seq<char>>, w: nat) -> Seq<char> {
    pad_to(a, w) + seq![' '] + join_names(ns)
}

/// The names written for address `a`: the table's entry if it has one, the
/// default name otherwise.
pub open spec fn lookup_names(t: Seq<EntryModel>, a: Seq<char>) -> Seq<Seq<char>> {
    let i = index_of_addr(t, a);
    if i >= 0 {
        t[i].names
    } else {
        seq![default_name()]
    }
}

/// The table's entries other than the two loopback ones, in table order.
pub open spec fn rest_entries(t: Seq<EntryModel>) -> Seq<EntryModel>
    decreases t.len(),
{
    if t.len() == 0 {
        Seq::empty()
    } else {
        let r = rest_entries(t.drop_last());
        if t.last().address == lb4() || t.last().address == lb6() {
            r
        } else {
            r.push(t.last())
        }
    }
}

/// Length of the longest address in the table.
pub open spec fn max_addr_len(t: Seq<EntryModel>) -> nat
    decreases t.len(),
{
    if t.len() == 0 {
        0
    } else {
        max_nat(max_addr_len(t.drop_last()), t.last().address.len())
    }
}

/// The width of the address column: the longest address written, the two
/// loopback addresses always among them.
pub open spec fn width(t: Seq<EntryModel>) -> nat {
    max_nat(lb4().len(), max_nat(lb6().len(), max_addr_len(t)))
}

/// The serialized lines of the non-loopback entries.
pub open spec fn lines_of_entries(es: Seq<EntryModel>, w: nat) -> Seq<Seq<char>>
    decreases es.len(),
{
    if es.len() == 0 {
        Seq::empty()
    } else {
        lines_of_entries(es.drop_last(), w).push(
            line_for(es.last().address, es.last().names, w),
        )
    }
}

/// The serialized form of the table: the IPv4 loopback line, the IPv6
/// loopback line, then every other entry in table order.
pub open spec fn render_lines_spec(t: Seq<EntryModel>) -> Seq<Seq<char>> {
    let w = width(t);
    seq![line_for(lb4(), lookup_names(t, lb4()), w), line_for(lb6(), lookup_names(t, lb6()), w)]
        + lines_of_entries(rest_entries(t), w)
}

/// `spaces(n)` really is `n` spaces.
pub proof fn lemma_spaces(n: nat)
    ensures
        spaces(n).len() == n,
        forall|i: int| 0 <= i < n ==> spaces(n)[i] == ' ',
    decreases n,
{
    if n > 0 {
        lemma_spaces((n - 1) as nat);
    }
}

/// Padding reaches exactly the asked width and keeps the address as prefix.
pub proof fn lemma_pad_to(a: Seq<char>, w: nat)
    ensures
        pad_to(a, w).len() == max_nat(a.len(), w),
        pad_to(a, w).take(a.len() as int) == a,
        forall|i: int| a.len() <= i < pad_to(a, w).len() ==> pad_to(a, w)[i] == ' ',
{
    lemma_spaces((w - a.len()) as nat);
    if a.len() >= w {
        assert(pad_to(a, w).take(a.len() as int) =~= a);
    } else {
        assert(pad_to(a, w).take(a.len() as int) =~= a);
    }
}

/// Appending one more name to a join appends a space and the name.
pub proof fn lemma_join_push(ns: Seq<Seq<char>>, x: Seq<char>)
    ensures
        ns.len() == 0 ==> join_names(ns.push(x)) == x,
        ns.len() > 0 ==> join_names(ns.push(x)) == join_names(ns) + seq![' '] + x,
    decreases ns.len(),
{
    let p = ns.push(x);
    if ns.len() == 0 {
        assert(p.len() == 1);
        assert(p[0] == x);
    } else if ns.len() == 1 {
        assert(p.len() == 2);
        assert(p[0] == ns[0]);
        assert(p.drop_first() =~= seq![x]);
        assert(join_names(seq![x]) == seq![x][0]);
        assert(seq![x][0] == x);
        assert(join_names(p) == ns[0] + seq![' '] + x);
        assert(join_names(ns) == ns[0]);
    } else {
        lemma_join_push(ns.drop_first(), x);
        assert(p.drop_first() =~= ns.drop_first().push(x));
        assert(p[0] == ns[0]);
        assert(join_names(p) == ns[0] + seq![' '] + join_names(ns.drop_first().push(x)));
        assert(ns[0] + seq![' '] + (join_names(ns.drop_first()) + seq![' '] + x) =~= (ns[0]
            + seq![' '] + join_names(ns.drop_first())) + seq![' '] + x);
    }
}

/// Every address in the table is at most the longest one.
pub proof fn lemma_max_addr_len_index(t: Seq<EntryModel>, i: int)
    requires
        0 <= i < t.len(),
    ensures
        t[i].address.len() <= max_addr_len(t),
    decreases t.len(),
{
    if i < t.len() - 1 {
        lemma_max_addr_len_index(t.drop_last(), i);
        assert(t.drop_last()[i] == t[i]);
    }
}

/// Shape of one line whose address fits the column.
pub proof fn lemma_line_for(a: Seq<char>, ns: Seq<Seq<char>>, w: nat)
    requires
        a.len() <= w,
    ensures
        pad_to(a, w).len() == w,
        line_for(a, ns, w).len() == w + 1 + join_names(ns).len(),
        line_for(a, ns, w).take(w as int) == pad_to(a, w),
        line_for(a, ns, w)[w as int] == ' ',
{
    lemma_pad_to(a, w);
    assert(line_for(a, ns, w).take(w as int) =~= pad_to(a, w));
}

/// The serialized lines of entries, entrywise.
pub proof fn lemma_lines_of_entries_index(es: Seq<EntryModel>, w: nat)
    ensures
        lines_of_entries(es, w).len() == es.len(),
        forall|k: int|
            0 <= k < es.len() ==> lines_of_entries(es, w)[k] == line_for(
                (#[trigger] es[k]).address,
                es[k].names,
                w,
            ),
    decreases es.len(),
{
    if es.len() > 0 {
        lemma_lines_of_entries_index(es.drop_last(), w);
        assert forall|k: int| 0 <= k < es.len() implies lines_of_entries(es, w)[k] == line_for(
            (#[trigger] es[k]).address,
            es[k].names,
            w,
        ) by {
            if k < es.len() - 1 {
                assert(es.drop_last()[k] == es[k]);
                assert(lines_of_entries(es, w)[k] == lines_of_entries(es.drop_last(), w)[k]);
            }
        }
    }
}

/// Non-loopback entries keep addresses no longer than the table's longest.
pub proof fn lemma_rest_entries_bound(t: Seq<EntryModel>)
    ensures
        forall|k: int|
            0 <= k < rest_entries(t).len() ==> (#[trigger] rest_entries(t)[k]).address.len()
                <= max_addr_len(t),
    decreases t.len(),
{
    if t.len() > 0 {
        lemma_rest_entries_bound(t.drop_last());
        let r = rest_entries(t.drop_last());
        assert forall|k: int| 0 <= k < rest_entries(t).len() implies (#[trigger] rest_entries(
            t,
        )[k]).address.len() <= max_addr_len(t) by {
            if k < r.len() {
                assert(rest_entries(t)[k] == r[k]);
            } else {
                assert(rest_entries(t)[k] == t.last());
            }
        }
    }
}

/// The non-loopback entries are exactly the table's entries whose address is
/// no loopback, in order, with pairwise distinct addresses.
#[verifier::rlimit(60)]
pub proof fn lemma_rest_entries_props(t: Seq<EntryModel>)
    requires
        table_wf(t),
    ensures
        rest_entries(t).len() <= t.len(),
        forall|k: int|
            0 <= k < rest_entries(t).len() ==> exists|j: int|
                0 <= j < t.len() && #[trigger] rest_entries(t)[k] == t[j],
        forall|k: int|
            0 <= k < rest_entries(t).len() ==> (#[trigger] rest_entries(t)[k]).address != lb4()
                && rest_entries(t)[k].address != lb6(),
        forall|k1: int, k2: int|
            0 <= k1 < k2 < rest_entries(t).len() ==> rest_entries(t)[k1].address != rest_entries(
                t,
            )[k2].address,
        forall|j: int|
            0 <= j < t.len() && (#[trigger] t[j]).address != lb4() && t[j].address != lb6()
                ==> exists|k: int| 0 <= k < rest_entries(t).len() && rest_entries(t)[k] == t[j],
    decreases t.len(),
{
    if t.len() > 0 {
        let dl = t.drop_last();
        assert(table_wf(dl)) by {
            assert forall|i: int, j: int| 0 <= i < j < dl.len() implies dl[i].address
                != dl[j].address by {
                assert(dl[i] == t[i]);
                assert(dl[j] == t[j]);
            }
            assert forall|i: int| 0 <= i < dl.len() implies crate::table::names_distinct(
                #[trigger] dl[i].names,
            ) by {
                assert(dl[i] == t[i]);
            }
        }
        lemma_rest_entries_props(dl);
        let r = rest_entries(dl);
        let rt = rest_entries(t);
        assert forall|j: int| 0 <= j < dl.len() implies dl[j] == t[j] by {}
        if t.last().address == lb4() || t.last().address == lb6() {
            assert(rt == r);
            assert forall|j: int|
                0 <= j < t.len() && (#[trigger] t[j]).address != lb4() && t[j].address != lb6()
                implies exists|k: int| 0 <= k < rt.len() && rt[k] == t[j] by {
                assert(j < t.len() - 1);
                assert(dl[j] == t[j]);
            }
        } else {
            assert(rt == r.push(t.last()));
            assert forall|k: int| 0 <= k < rt.len() implies exists|j: int|
                0 <= j < t.len() && #[trigger] rt[k] == t[j] by {
                if k < r.len() {
                    assert(rt[k] == r[k]);
                    let j0 = choose|j0: int| 0 <= j0 < dl.len() && r[k] == dl[j0];
                    assert(rt[k] == t[j0]);
                } else {
                    assert(rt[k] == t[t.len() - 1]);
                }
            }
            assert forall|k: int| 0 <= k < rt.len() implies (#[trigger] rt[k]).address != lb4()
                && rt[k].address != lb6() by {
                if k < r.len() {
                    assert(rt[k] == r[k]);
                }
            }
            assert forall|k1: int, k2: int| 0 <= k1 < k2 < rt.len() implies rt[k1].address
                != rt[k2].address by {
                if k2 < r.len() {
                    assert(rt[k1] == r[k1]);
                    assert(rt[k2] == r[k2]);
                } else {
                    assert(rt[k1] == r[k1]);
                    let j0 = choose|j0: int| 0 <= j0 < dl.len() && r[k1] == dl[j0];
                    assert(rt[k1] == t[j0]);
                    assert(t[j0].address != t[t.len() - 1].address);
                }
            }
            assert forall|j: int|
                0 <= j < t.len() && (#[trigger] t[j]).address != lb4() && t[j].address != lb6()
                implies exists|k: int| 0 <= k < rt.len() && rt[k] == t[j] by {
                if j < t.len() - 1 {
                    assert(dl[j] == t[j]);
                    let k0 = choose|k0: int| 0 <= k0 < r.len() && r[k0] == dl[j];
                    assert(rt[k0] == t[j]);
                } else {
                    assert(rt[r.len() as int] == t[j]);
                }
            }
        }
    }
}

/// The longest address length is attained by some entry.
pub proof fn lemma_max_addr_len_exists(t: Seq<EntryModel>)
    ensures
        t.len() == 0 ==> max_addr_len(t) == 0,
        t.len() > 0 ==> exists|j: int|
            0 <= j < t.len() && (#[trigger] t[j]).address.len() == max_addr_len(t),
    decreases t.len(),
{
    if t.len() == 0 {
    } else {
        let dl = t.drop_last();
        lemma_max_addr_len_exists(dl);
        if t.len() == 1 {
            assert(t[0].address.len() == max_addr_len(t));
        } else if t.last().address.len() >= max_addr_len(dl) {
            assert(t[t.len() - 1].address.len() == max_addr_len(t));
        } else {
            let j0 = choose|j0: int|
                0 <= j0 < dl.len() && (#[trigger] dl[j0]).address.len() == max_addr_len(dl);
            assert(t[j0] == dl[j0]);
            assert(t[j0].address.len() == max_addr_len(t));
        }
    }
}

/// Which address the `i`-th serialized line is for.
pub open spec fn addr_at(t: Seq<EntryModel>, i: int) -> Seq<char> {
    if i == 0 {
        lb4()
    } else if i == 1 {
        lb6()
    } else {
        rest_entries(t)[i - 2].address
    }
}

/// The loopback lines always come first, IPv4 before IPv6, whatever order
/// the table's own entries are in: the first serialized line is the IPv4
/// loopback line and the second the IPv6 loopback line.
pub proof fn lemma_render_loopback_first(t: Seq<EntryModel>)
    ensures
        render_lines_spec(t).len() >= 2,
        render_lines_spec(t)[0] == line_for(lb4(), lookup_names(t, lb4()), width(t)),
        render_lines_spec(t)[1] == line_for(lb6(), lookup_names(t, lb6()), width(t)),
        render_lines_spec(t)[0].take(lb4().len() as int) == lb4(),
        render_lines_spec(t)[1].take(lb6().len() as int) == lb6(),
{
    let w = width(t);
    lemma_pad_to(lb4(), w);
    lemma_pad_to(lb6(), w);
    let l0 = render_lines_spec(t)[0];
    let l1 = render_lines_spec(t)[1];
    assert(l0 == line_for(lb4(), lookup_names(t, lb4()), w));
    assert(l1 == line_for(lb6(), lookup_names(t, lb6()), w));
    assert(l0.take(lb4().len() as int) =~= pad_to(lb4(), w).take(lb4().len() as int));
    assert(l1.take(lb6().len() as int) =~= pad_to(lb6(), w).take(lb6().len() as int));
}

/// Line `i` of the serialization is its address padded to the common width,
/// then one space, then the names.
pub open spec fn line_aligned(t: Seq<EntryModel>, i: int) -> bool {
    &&& pad_to(addr_at(t, i), width(t)).len() == width(t)
    &&& render_lines_spec(t)[i].len() > width(t)
    &&& render_lines_spec(t)[i].take(width(t) as int) == pad_to(addr_at(t, i), width(t))
    &&& render_lines_spec(t)[i][width(t) as int] == ' '
}

/// The address column is uniformly padded: every line is its address padded
/// to the common width, then one space, then the names.
pub proof fn lemma_render_aligned(t: Seq<EntryModel>)
    ensures
        render_lines_spec(t).len() == 2 + rest_entries(t).len(),
        forall|i: int| 0 <= i < render_lines_spec(t).len() ==> #[trigger] line_aligned(t, i),
{
    let w = width(t);
    lemma_lines_of_entries_index(rest_entries(t), w);
    lemma_rest_entries_bound(t);
    assert forall|i: int| 0 <= i < render_lines_spec(t).len() implies #[trigger] line_aligned(
        t,
        i,
    ) by {
        if i >= 2 {
            assert(render_lines_spec(t)[i] == lines_of_entries(rest_entries(t), w)[i - 2]);
            assert(rest_entries(t)[i - 2].address.len() <= max_addr_len(t));
            lemma_line_for(addr_at(t, i), rest_entries(t)[i - 2].names, w);
        } else if i == 0 {
            assert(render_lines_spec(t)[0] == line_for(lb4(), lookup_names(t, lb4()), w));
            lemma_line_for(lb4(), lookup_names(t, lb4()), w);
        } else {
            assert(render_lines_spec(t)[1] == line_for(lb6(), lookup_names(t, lb6()), w));
            lemma_line_for(lb6(), lookup_names(t, lb6()), w);
        }
    }
}

/// Builds one output line: the address padded to `w`, a space, the names.
fn build_line(addr: &str, names: &Vec<String>, w: usize) -> (line: String)
    ensures
        line@ == line_for(addr@, names.deep_view(), w as nat),
{
    let mut line = String::from_str(addr);
    let mut p = addr.unicode_len();
    proof {
        assert(line@ =~= addr@ + spaces(0));
    }
    while p < w
        invariant
            p >= addr@.len(),
            p == addr@.len() || (addr@.len() < w && p <= w),
            line@ == addr@ + spaces((p - addr@.len()) as nat),
        decreases w - p,
    {
        line.append(" ");
        proof {
            reveal_strlit(" ");
            assert(" "@ =~= seq![' ']);
            let k = (p - addr@.len()) as nat;
            assert(spaces(k + 1) == spaces(k).push(' '));
            assert((addr@ + spaces(k)) + seq![' '] =~= addr@ + spaces(k).push(' '));
        }
        p = p + 1;
    }
    proof {
        if addr@.len() >= w as nat {
            assert(p == addr@.len());
            assert(addr@ + spaces(0) =~= addr@);
            assert(line@ == pad_to(addr@, w as nat));
        } else {
            assert(p == w);
            assert(line@ == pad_to(addr@, w as nat));
        }
    }
    line.append(" ");
    proof {
        reveal_strlit(" ");
        assert(" "@ =~= seq![' ']);
    }
    let ghost pre = pad_to(addr@, w as nat) + seq![' '];
    let ghost ns = names.deep_view();
    let n = names.len();
    let mut k: usize = 0;
    proof {
        assert(ns.take(0) =~= Seq::<Seq<char>>::empty());
        assert(line@ =~= pre + join_names(ns.take(0)));
    }
    while k < n
        invariant
            k <= n,
            n == names@.len(),
            names.deep_view() == ns,
            line@ == pre + join_names(ns.take(k as int)),
        decreases n - k,
    {
        if k > 0 {
            line.append(" ");
            proof {
                reveal_strlit(" ");
                assert(" "@ =~= seq![' ']);
            }
        }
        line.append(names[k].as_str());
        proof {
            assert(names@[k as int]@ == ns[k as int]);
            lemma_join_push(ns.take(k as int), ns[k as int]);
            assert(ns.take(k as int).push(ns[k as int]) =~= ns.take(k + 1));
            if k == 0 {
                assert(line@ =~= pre + join_names(ns.take(1)));
            } else {
                assert((pre + join_names(ns.take(k as int))) + seq![' '] + ns[k as int] =~= pre + (
                join_names(ns.take(k as int)) + seq![' '] + ns[k as int]));
            }
        }
        k = k + 1;
    }
    proof {
        assert(ns.take(n as int) =~= ns);
        assert(line@ =~= line_for(addr@, ns, w as nat));
    }
    line
}

/// Computes the width of the address column.
fn compute_width(table: &AliasTable) -> (w: usize)
    ensures
        w as nat == width(table@),
{
    let mut w = "127.0.0.1".unicode_len();
    let l6 = "::1".unicode_len();
    if l6 > w {
        w = l6;
    }
    let ghost t = table@;
    let n = table.len();
    let mut i: usize = 0;
    proof {
        assert(t.take(0) =~= Seq::<EntryModel>::empty());
        assert(max_addr_len(t.take(0)) == 0);
    }
    while i < n
        invariant
            i <= n,
            n == t.len(),
            t == table@,
            w as nat == max_nat(lb4().len(), max_nat(lb6().len(), max_addr_len(t.take(i as int)))),
        decreases n - i,
    {
        let e = table.entry_at(i);
        let al = e.address.as_str().unicode_len();
        proof {
            assert(t.take(i + 1).drop_last() =~= t.take(i as int));
            assert(t.take(i + 1).last() == t[i as int]);
        }
        if al > w {
            w = al;
        }
        i = i + 1;
    }
    proof {
        assert(t.take(n as int) =~= t);
    }
    w
}

/// Serializes the table.  The first line is always the IPv4 loopback, the
/// second always the IPv6 loopback (each with its table names, or the
/// default name when the table has no such entry); every other entry
/// follows in table order, the address column padded to a uniform width.
pub fn serialize_table(table: &AliasTable) -> (lines: Vec<String>)
    ensures
        lines.deep_view() == render_lines_spec(table@),
{
    let ghost t = table@;
    let w = compute_width(table);
    let lb4s = String::from_str("127.0.0.1");
    let lb6s = String::from_str("::1");
    proof {
        assert(lb4s@ == lb4());
        assert(lb6s@ == lb6());
    }
    let mut lines: Vec<String> = Vec::new();

    let line4 = match table.lookup(&lb4s) {
        Some(ns) => build_line("127.0.0.1", ns, w),
        None => {
            let defaults = vec![String::from_str("localhost")];
            proof {
                assert(defaults.deep_view() =~= seq![default_name()]);
            }
            build_line("127.0.0.1", &defaults, w)
        },
    };
    lines.push(line4);

    let line6 = match table.lookup(&lb6s) {
        Some(ns) => build_line("::1", ns, w),
        None => {
            let defaults = vec![String::from_str("localhost")];
            proof {
                assert(defaults.deep_view() =~= seq![default_name()]);
            }
            build_line("::1", &defaults, w)
        },
    };
    lines.push(line6);

    let ghost head = seq![
        line_for(lb4(), lookup_names(t, lb4()), width(t)),
        line_for(lb6(), lookup_names(t, lb6()), width(t)),
    ];
    proof {
        assert(lines.deep_view() =~= head);
    }

    let n = table.len();
    let mut i: usize = 0;
    proof {
        assert(t.take(0) =~= Seq::<EntryModel>::empty());
        assert(lines.deep_view() =~= head + lines_of_entries(rest_entries(t.take(0)), w as nat));
    }
    while i < n
        invariant
            i <= n,
            n == t.len(),
            t == table@,
            w as nat == width(t),
            lb4s@ == lb4(),
            lb6s@ == lb6(),
            lines.deep_view() == head + lines_of_entries(rest_entries(t.take(i as int)), w as nat),
        decreases n - i,
    {
        let ghost prev = lines.deep_view();
        let e = table.entry_at(i);
        proof {
            assert(t.take(i + 1).drop_last() =~= t.take(i as int));
            assert(t.take(i + 1).last() == t[i as int]);
        }
        if !(e.address == lb4s) && !(e.address == lb6s) {
            let line = build_line(e.address.as_str(), &e.names, w);
            lines.push(line);
            proof {
                assert(e.address@ == t[i as int].address);
                assert(e.names.deep_view() == t[i as int].names);
                assert(t[i as int].address != lb4());
                assert(t[i as int].address != lb6());
                assert(rest_entries(t.take(i + 1)) == rest_entries(t.take(i as int)).push(
                    t[i as int],
                ));
                assert(lines.deep_view() =~= prev.push(
                    line_for(t[i as int].address, t[i as int].names, w as nat),
                ));
                let r = rest_entries(t.take(i as int));
                assert(r.push(t[i as int]).drop_last() =~= r);
                assert(r.push(t[i as int]).last() == t[i as int]);
                assert(lines_of_entries(r.push(t[i as int]), w as nat) == lines_of_entries(
                    r,
                    w as nat,
                ).push(line_for(t[i as int].address, t[i as int].names, w as nat)));
                assert(prev.push(line_for(t[i as int].address, t[i as int].names, w as nat)) =~=
                head + lines_of_entries(rest_entries(t.take(i + 1)), w as nat));
            }
        } else {
            proof {
                assert(e.address@ == t[i as int].address);
                assert(t[i as int].address == lb4() || t[i as int].address == lb6());
                assert(rest_entries(t.take(i + 1)) == rest_entries(t.take(i as int)));
            }
        }
        i = i + 1;
    }
    proof {
        assert(t.take(n as int) =~= t);
    }
    lines
}

} // verus!
