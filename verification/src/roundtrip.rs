//! The serialize/parse round trip: a serialized table, parsed back and
//! serialized again, yields the very same lines.

use crate::parse::{add_line_spec, extract_hosts_spec, parse_lines_spec};
use crate::render::{
    default_name, join_names, lb4, lb6, lemma_line_for, lemma_lines_of_entries_index,
    lemma_max_addr_len_exists, lemma_max_addr_len_index, lemma_pad_to, lemma_rest_entries_props,
    line_for, lines_of_entries, lookup_names, max_addr_len, max_nat, pad_to, render_lines_spec,
    rest_entries, width,
};
use crate::table::{
    add_names_spec, index_of_addr, lemma_add_names_fresh, lemma_index_of_addr,
    lemma_index_of_addr_is, names_distinct, no_comment_addrs, table_clean, table_wf, EntryModel,
};
use crate::text::{
    is_space_char, lemma_leading_spaces_is, lemma_tokens_acc_flush, lemma_tokens_acc_run,
    lemma_trailing_spaces_is, token_seq, tokens, tokens_acc, trim_spec,
};
use vstd::prelude::*;

verus! {

/// Joining whitespace-free tokens with spaces and tokenizing again gives the
/// tokens back.
pub proof fn lemma_tokens_join(ns: Seq<Seq<char>>)
    requires
        ns.len() >= 1,
        forall|j: int| 0 <= j < ns.len() ==> token_seq(#[trigger] ns[j]),
    ensures
        tokens(join_names(ns)) == ns,
        join_names(ns).len() > 0,
        !is_space_char(join_names(ns)[0]),
        !is_space_char(join_names(ns).last()),
    decreases ns.len(),
{
    let s = join_names(ns);
    if ns.len() == 1 {
        assert(s == ns[0]);
        assert(token_seq(ns[0]));
        lemma_tokens_acc_run(s, Seq::empty(), s.len() as int);
        assert(s.skip(s.len() as int) =~= Seq::<char>::empty());
        assert(Seq::empty() + s.take(s.len() as int) =~= s);
        assert(tokens_acc(Seq::<char>::empty(), s) == seq![s]);
        assert(tokens(s) =~= ns);
    } else {
        let rest = ns.drop_first();
        assert forall|j: int| 0 <= j < rest.len() implies token_seq(#[trigger] rest[j]) by {
            assert(rest[j] == ns[j + 1]);
        }
        lemma_tokens_join(rest);
        let k0 = ns[0].len() as int;
        assert(s == ns[0] + seq![' '] + join_names(rest));
        assert forall|m: int| 0 <= m < k0 implies !is_space_char(s[m]) by {
            assert(s[m] == ns[0][m]);
        }
        lemma_tokens_acc_run(s, Seq::empty(), k0);
        assert(Seq::empty() + s.take(k0) =~= ns[0]);
        let tail = s.skip(k0);
        assert(tail =~= seq![' '] + join_names(rest));
        assert(is_space_char(tail[0]));
        lemma_tokens_acc_flush(tail, ns[0], 1);
        assert(tail.skip(1) =~= join_names(rest));
        assert(tokens(s) == seq![ns[0]] + tokens(join_names(rest)));
        assert(seq![ns[0]] + rest =~= ns);
        assert(s[0] == ns[0][0]);
        assert(s.last() == join_names(rest).last());
    }
}

/// A serialized line survives extraction unchanged and tokenizes back to its
/// address followed by its names.
pub proof fn lemma_line_round_trip(a: Seq<char>, ns: Seq<Seq<char>>, w: nat)
    requires
        token_seq(a),
        a[0] != '#',
        ns.len() >= 1,
        forall|j: int| 0 <= j < ns.len() ==> token_seq(#[trigger] ns[j]),
    ensures
        extract_hosts_spec(line_for(a, ns, w)) == line_for(a, ns, w),
        tokens(line_for(a, ns, w)).len() == 1 + ns.len(),
        tokens(line_for(a, ns, w))[0] == a,
        tokens(line_for(a, ns, w)).skip(1) == ns,
{
    let line = line_for(a, ns, w);
    lemma_pad_to(a, w);
    lemma_tokens_join(ns);
    let pl = pad_to(a, w).len() as int;
    let al = a.len() as int;
    assert(line.len() == pl + 1 + join_names(ns).len());
    assert forall|m: int| 0 <= m < al implies line[m] == a[m] by {
        assert(line[m] == pad_to(a, w)[m]);
        assert(pad_to(a, w).take(al)[m] == pad_to(a, w)[m]);
    }
    assert(line[0] == a[0]);
    lemma_leading_spaces_is(line, 0);
    assert(line.last() == join_names(ns).last());
    lemma_trailing_spaces_is(line, 0);
    assert(trim_spec(line) =~= line);
    assert(extract_hosts_spec(line) == line);
    assert forall|m: int| 0 <= m < al implies !is_space_char(line[m]) by {
        assert(line[m] == a[m]);
    }
    lemma_tokens_acc_run(line, Seq::empty(), al);
    assert(Seq::empty() + line.take(al) =~= a);
    let tail = line.skip(al);
    assert forall|m: int| 0 <= m < pl - al + 1 implies is_space_char(tail[m]) by {
        assert(tail[m] == line[al + m]);
        if al + m < pl {
            assert(line[al + m] == pad_to(a, w)[al + m]);
            assert(pad_to(a, w)[al + m] == ' ');
        } else {
            assert(line[pl] == (pad_to(a, w) + seq![' '])[pl]);
            assert(line[pl] == ' ');
        }
    }
    assert(tail.len() == pl - al + 1 + join_names(ns).len());
    lemma_tokens_acc_flush(tail, a, pl - al + 1);
    assert(tail.skip(pl - al + 1) =~= join_names(ns));
    assert(tokens(line) == seq![a] + tokens(join_names(ns)));
    assert(tokens(line) == seq![a] + ns);
    assert((seq![a] + ns).skip(1) =~= ns);
    assert((seq![a] + ns)[0] == a);
}

/// The table a serialized file parses back to: the two loopback entries
/// first (with the names the serialization wrote for them), then every
/// other entry in table order.
pub open spec fn normalize_spec(t: Seq<EntryModel>) -> Seq<EntryModel> {
    seq![
        EntryModel { address: lb4(), names: lookup_names(t, lb4()) },
        EntryModel { address: lb6(), names: lookup_names(t, lb6()) },
    ] + rest_entries(t)
}

/// The loopback addresses and the default name are distinct whitespace-free
/// tokens and no comments.
proof fn lemma_loopback_tokens()
    ensures
        token_seq(lb4()),
        token_seq(lb6()),
        token_seq(default_name()),
        lb4()[0] != '#',
        lb6()[0] != '#',
        lb4() != lb6(),
{
    reveal_strlit("127.0.0.1");
    reveal_strlit("::1");
    reveal_strlit("localhost");
    assert(lb4().len() == 9);
    assert(lb6().len() == 3);
    assert(default_name().len() == 9);
    assert forall|i: int| 0 <= i < lb4().len() implies !is_space_char(#[trigger] lb4()[i]) by {
        assert(lb4()[0] == '1');
        assert(lb4()[1] == '2');
        assert(lb4()[2] == '7');
        assert(lb4()[3] == '.');
        assert(lb4()[4] == '0');
        assert(lb4()[5] == '.');
        assert(lb4()[6] == '0');
        assert(lb4()[7] == '.');
        assert(lb4()[8] == '1');
    }
    assert forall|i: int| 0 <= i < lb6().len() implies !is_space_char(#[trigger] lb6()[i]) by {
        assert(lb6()[0] == ':');
        assert(lb6()[1] == ':');
        assert(lb6()[2] == '1');
    }
    assert forall|i: int| 0 <= i < default_name().len() implies !is_space_char(
        #[trigger] default_name()[i],
    ) by {
        assert(default_name()[0] == 'l');
        assert(default_name()[1] == 'o');
        assert(default_name()[2] == 'c');
        assert(default_name()[3] == 'a');
        assert(default_name()[4] == 'l');
        assert(default_name()[5] == 'h');
        assert(default_name()[6] == 'o');
        assert(default_name()[7] == 's');
        assert(default_name()[8] == 't');
    }
}

/// Every normalized entry is clean, uncommented, and its address unique.
proof fn lemma_normalize_entry_facts(t: Seq<EntryModel>)
    requires
        table_wf(t),
        table_clean(t),
        no_comment_addrs(t),
    ensures
        normalize_spec(t).len() == 2 + rest_entries(t).len(),
        forall|i: int|
            0 <= i < normalize_spec(t).len() ==> {
                &&& token_seq((#[trigger] normalize_spec(t)[i]).address)
                &&& normalize_spec(t)[i].address[0] != '#'
                &&& normalize_spec(t)[i].names.len() >= 1
                &&& (forall|j: int|
                    0 <= j < normalize_spec(t)[i].names.len() ==> token_seq(
                        #[trigger] normalize_spec(t)[i].names[j],
                    ))
                &&& names_distinct(normalize_spec(t)[i].names)
            },
        forall|i1: int, i2: int|
            0 <= i1 < i2 < normalize_spec(t).len() ==> normalize_spec(t)[i1].address
                != normalize_spec(t)[i2].address,
{
    let norm = normalize_spec(t);
    lemma_loopback_tokens();
    lemma_rest_entries_props(t);
    lemma_index_of_addr(t, lb4());
    lemma_index_of_addr(t, lb6());
    assert(norm[0].address == lb4());
    assert(norm[1].address == lb6());
    assert forall|i: int| 0 <= i < norm.len() implies {
        &&& token_seq((#[trigger] norm[i]).address)
        &&& norm[i].address[0] != '#'
        &&& norm[i].names.len() >= 1
        &&& (forall|j: int| 0 <= j < norm[i].names.len() ==> token_seq(#[trigger] norm[i].names[j]))
        &&& names_distinct(norm[i].names)
    } by {
        if i >= 2 {
            assert(norm[i] == rest_entries(t)[i - 2]);
            let j = choose|j: int| 0 <= j < t.len() && rest_entries(t)[i - 2] == t[j];
            assert(norm[i] == t[j]);
        } else {
            let a = if i == 0 {
                lb4()
            } else {
                lb6()
            };
            assert(norm[i].names == lookup_names(t, a));
            let idx = index_of_addr(t, a);
            if idx >= 0 {
                assert(norm[i].names == t[idx].names);
            } else {
                assert(norm[i].names == seq![default_name()]);
                assert(norm[i].names[0] == default_name());
            }
        }
    }
    assert forall|i1: int, i2: int| 0 <= i1 < i2 < norm.len() implies norm[i1].address
        != norm[i2].address by {
        if i1 >= 2 {
            assert(norm[i1] == rest_entries(t)[i1 - 2]);
            assert(norm[i2] == rest_entries(t)[i2 - 2]);
        } else if i2 >= 2 {
            assert(norm[i2] == rest_entries(t)[i2 - 2]);
        }
    }
}

/// Parsing the first `k` serialized lines yields the first `k` normalized
/// entries.
proof fn lemma_parse_norm_prefix(t: Seq<EntryModel>, k: int)
    requires
        table_wf(t),
        table_clean(t),
        no_comment_addrs(t),
        0 <= k <= normalize_spec(t).len(),
    ensures
        parse_lines_spec(render_lines_spec(t).take(k)) == normalize_spec(t).take(k),
    decreases k,
{
    let lines = render_lines_spec(t);
    let norm = normalize_spec(t);
    let w = width(t);
    lemma_lines_of_entries_index(rest_entries(t), w);
    lemma_normalize_entry_facts(t);
    assert(lines.len() == norm.len());
    if k == 0 {
        assert(lines.take(0) =~= Seq::<Seq<char>>::empty());
        assert(norm.take(0) =~= Seq::<EntryModel>::empty());
    } else {
        lemma_parse_norm_prefix(t, k - 1);
        let e = norm[k - 1];
        if k - 1 >= 2 {
            assert(norm[k - 1] == rest_entries(t)[k - 3]);
            assert(lines[k - 1] == lines_of_entries(rest_entries(t), w)[k - 3]);
            assert(lines[k - 1] == line_for(e.address, e.names, w));
        } else if k - 1 == 0 {
            assert(lines[0] == line_for(lb4(), lookup_names(t, lb4()), w));
            assert(lines[k - 1] == line_for(e.address, e.names, w));
        } else {
            assert(lines[1] == line_for(lb6(), lookup_names(t, lb6()), w));
            assert(lines[k - 1] == line_for(e.address, e.names, w));
        }
        lemma_line_round_trip(e.address, e.names, w);
        assert(lines.take(k).drop_last() =~= lines.take(k - 1));
        assert(lines.take(k).last() == lines[k - 1]);
        let acc = norm.take(k - 1);
        let line = lines[k - 1];
        let ts = tokens(line);
        assert(parse_lines_spec(lines.take(k)) == add_line_spec(acc, extract_hosts_spec(line)));
        assert(add_line_spec(acc, line) == add_names_spec(acc, ts[0], ts.skip(1)));
        assert forall|j: int| 0 <= j < acc.len() implies acc[j].address != e.address by {
            assert(acc[j] == norm[j]);
        }
        lemma_index_of_addr_is(acc, e.address, acc.len() as int);
        lemma_add_names_fresh(acc, e.address, e.names);
        assert(EntryModel { address: e.address, names: e.names } =~= e);
        assert(acc.push(e) =~= norm.take(k));
    }
}

/// Parsing a serialized table yields its normalized form.
pub proof fn lemma_parse_of_render(t: Seq<EntryModel>)
    requires
        table_wf(t),
        table_clean(t),
        no_comment_addrs(t),
    ensures
        parse_lines_spec(render_lines_spec(t)) == normalize_spec(t),
{
    let lines = render_lines_spec(t);
    let norm = normalize_spec(t);
    lemma_lines_of_entries_index(rest_entries(t), width(t));
    lemma_parse_norm_prefix(t, norm.len() as int);
    assert(lines.take(norm.len() as int) =~= lines);
    assert(norm.take(norm.len() as int) =~= norm);
}

/// Stripping the two loopback entries in front of loopback-free entries
/// gives those entries back.
proof fn lemma_rest_skip_loopback(e4: EntryModel, e6: EntryModel, u: Seq<EntryModel>)
    requires
        e4.address == lb4(),
        e6.address == lb6(),
        forall|k: int|
            0 <= k < u.len() ==> (#[trigger] u[k]).address != lb4() && u[k].address != lb6(),
    ensures
        rest_entries(seq![e4, e6] + u) == u,
    decreases u.len(),
{
    let v = seq![e4, e6] + u;
    if u.len() == 0 {
        assert(v =~= seq![e4, e6]);
        assert(v.last() == e6);
        assert(v.drop_last() =~= seq![e4]);
        assert(seq![e4].last() == e4);
        assert(seq![e4].drop_last() =~= Seq::<EntryModel>::empty());
        assert(rest_entries(Seq::<EntryModel>::empty()) =~= Seq::<EntryModel>::empty());
        assert(rest_entries(seq![e4]) =~= Seq::<EntryModel>::empty());
        assert(rest_entries(v) =~= u);
    } else {
        let du = u.drop_last();
        assert forall|k: int| 0 <= k < du.len() implies (#[trigger] du[k]).address != lb4()
            && du[k].address != lb6() by {
            assert(du[k] == u[k]);
        }
        lemma_rest_skip_loopback(e4, e6, du);
        assert(v.last() == u.last());
        assert(v.drop_last() =~= seq![e4, e6] + du);
        assert(u.last().address != lb4() && u.last().address != lb6());
        assert(rest_entries(v) == rest_entries(seq![e4, e6] + du).push(u.last()));
        assert(du.push(u.last()) =~= u);
    }
}

/// Normalizing keeps the width of the address column.
#[verifier::rlimit(60)]
proof fn lemma_width_normalize(t: Seq<EntryModel>)
    requires
        table_wf(t),
    ensures
        width(normalize_spec(t)) == width(t),
{
    let norm = normalize_spec(t);
    lemma_rest_entries_props(t);
    lemma_max_addr_len_exists(t);
    lemma_max_addr_len_exists(norm);
    assert(max_addr_len(norm) <= width(t)) by {
        let i = choose|i: int|
            0 <= i < norm.len() && (#[trigger] norm[i]).address.len() == max_addr_len(norm);
        if i >= 2 {
            assert(norm[i] == rest_entries(t)[i - 2]);
            let j = choose|j: int| 0 <= j < t.len() && rest_entries(t)[i - 2] == t[j];
            lemma_max_addr_len_index(t, j);
        }
    }
    assert(max_addr_len(t) <= width(norm)) by {
        if t.len() > 0 {
            let j = choose|j: int|
                0 <= j < t.len() && (#[trigger] t[j]).address.len() == max_addr_len(t);
            if t[j].address == lb4() || t[j].address == lb6() {
            } else {
                let k = choose|k: int|
                    0 <= k < rest_entries(t).len() && rest_entries(t)[k] == t[j];
                assert(norm[k + 2] == rest_entries(t)[k]);
                lemma_max_addr_len_index(norm, k + 2);
            }
        }
    }
}

/// Normalizing keeps what is written for each loopback address.
proof fn lemma_lookup_normalize(t: Seq<EntryModel>)
    ensures
        lookup_names(normalize_spec(t), lb4()) == lookup_names(t, lb4()),
        lookup_names(normalize_spec(t), lb6()) == lookup_names(t, lb6()),
{
    let norm = normalize_spec(t);
    lemma_loopback_tokens();
    assert(norm[0].address == lb4());
    assert(norm[1].address == lb6());
    lemma_index_of_addr_is(norm, lb4(), 0);
    lemma_index_of_addr_is(norm, lb6(), 1);
}

/// The round trip: parsing a serialized table yields its normalized form,
/// and serializing that form again yields the very same lines — the same
/// addresses with the same names, only with the loopback entries brought to
/// the front (and synthesized where the table lacked them).
pub proof fn lemma_serialize_parse_round_trip(t: Seq<EntryModel>)
    requires
        table_wf(t),
        table_clean(t),
        no_comment_addrs(t),
    ensures
        parse_lines_spec(render_lines_spec(t)) == normalize_spec(t),
        render_lines_spec(parse_lines_spec(render_lines_spec(t))) == render_lines_spec(t),
{
    lemma_parse_of_render(t);
    let norm = normalize_spec(t);
    lemma_width_normalize(t);
    lemma_lookup_normalize(t);
    lemma_rest_entries_props(t);
    assert(seq![norm[0], norm[1]] + rest_entries(t) =~= norm);
    lemma_rest_skip_loopback(norm[0], norm[1], rest_entries(t));
    assert(rest_entries(norm) == rest_entries(t));
    assert(render_lines_spec(norm) =~= render_lines_spec(t));
}

} // verus!
