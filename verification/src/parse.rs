//! Parsing alias-file lines into an [`AliasTable`].

use crate::table::{
    add_name_spec, add_names_spec, no_comment_addrs, table_clean, table_wf, AliasTable, EntryModel,
};
use crate::text::{
    lemma_tokens_acc_clean, lemma_tokens_first_char, lemma_trim_props, split_tokens, token_seq,
    tokens, trim_spec, trim_str,
};
use vstd::prelude::*;
use vstd::string::*;

verus! {

/// The part of a line that carries data: the line with surrounding
/// whitespace removed, or the empty string for a blank or comment line.
pub open spec fn extract_hosts_spec(s: Seq<char>) -> Seq<char> {
    let t = trim_spec(s);
    if t.len() > 0 && t[0] != '#' {
        t
    } else {
        Seq::empty()
    }
}

/// Effect of recording one extracted line: the first token is the address,
/// every further token a name appended to its entry unless already present.
/// A line with fewer than two tokens contributes nothing.
pub open spec fn add_line_spec(t: Seq<EntryModel>, line: Seq<char>) -> Seq<EntryModel> {
    let ts = tokens(line);
    if ts.len() >= 2 {
        add_names_spec(t, ts[0], ts.skip(1))
    } else {
        t
    }
}

/// The table an alias file's lines parse to.
pub open spec fn parse_lines_spec(ls: Seq<Seq<char>>) -> Seq<EntryModel>
    decreases ls.len(),
{
    if ls.len() == 0 {
        Seq::empty()
    } else {
        add_line_spec(parse_lines_spec(ls.drop_last()), extract_hosts_spec(ls.last()))
    }
}

/// Recording a line's names preserves the table invariant.
pub proof fn lemma_add_names_wf(t: Seq<EntryModel>, a: Seq<char>, ns: Seq<Seq<char>>)
    requires
        table_wf(t),
    ensures
        table_wf(add_names_spec(t, a, ns)),
    decreases ns.len(),
{
    if ns.len() > 0 {
        lemma_add_names_wf(t, a, ns.drop_last());
        crate::table::lemma_add_name_wf(add_names_spec(t, a, ns.drop_last()), a, ns.last());
    }
}

/// A parsed table always satisfies the table invariant.
pub proof fn lemma_parse_wf(ls: Seq<Seq<char>>)
    ensures
        table_wf(parse_lines_spec(ls)),
    decreases ls.len(),
{
    if ls.len() > 0 {
        lemma_parse_wf(ls.drop_last());
        let t = parse_lines_spec(ls.drop_last());
        let line = extract_hosts_spec(ls.last());
        if tokens(line).len() >= 2 {
            lemma_add_names_wf(t, tokens(line)[0], tokens(line).skip(1));
        }
    }
}

/// Parsing is deterministic: the table is a function of the lines alone, so
/// parsing the same file twice yields equal tables.
pub proof fn lemma_parse_deterministic(ls1: Seq<Seq<char>>, ls2: Seq<Seq<char>>)
    requires
        ls1 == ls2,
    ensures
        parse_lines_spec(ls1) == parse_lines_spec(ls2),
{
}

/// Trims the line; keeps it only if it is nonempty and no comment.
pub fn extract_hosts(value: &str) -> (r: String)
    ensures
        r@ == extract_hosts_spec(value@),
{
    let t = trim_str(value);
    if t.unicode_len() > 0 && t.get_char(0) != '#' {
        String::from_str(t)
    } else {
        String::new()
    }
}

/// Records one line's tokens in the table: the first token is the address,
/// each further token a name, duplicates skipped.
pub fn add_hosts_to_map(ip_hostname: &str, ip_host_map: &mut AliasTable)
    requires
        table_wf(old(ip_host_map)@),
    ensures
        final(ip_host_map)@ == add_line_spec(old(ip_host_map)@, ip_hostname@),
        table_wf(final(ip_host_map)@),
        table_clean(old(ip_host_map)@) ==> table_clean(final(ip_host_map)@),
        no_comment_addrs(old(ip_host_map)@) && (tokens(ip_hostname@).len() < 2 || tokens(
            ip_hostname@,
        )[0][0] != '#') ==> no_comment_addrs(final(ip_host_map)@),
{
    let toks = split_tokens(ip_hostname);
    let n = toks.len();
    proof {
        lemma_tokens_acc_clean(ip_hostname@, Seq::empty());
    }
    if n >= 2 {
        let ghost t0 = ip_host_map@;
        let ghost ts = tokens(ip_hostname@);
        let mut k: usize = 1;
        proof {
            assert(ts.skip(1).take(0) =~= Seq::<Seq<char>>::empty());
        }
        while k < n
            invariant
                1 <= k <= n,
                n == toks@.len(),
                toks.deep_view() == ts,
                ts == tokens(ip_hostname@),
                ts.len() >= 2,
                table_wf(ip_host_map@),
                ip_host_map@ == add_names_spec(t0, ts[0], ts.skip(1).take(k - 1)),
                table_clean(t0) ==> table_clean(ip_host_map@),
                no_comment_addrs(t0) && ts[0][0] != '#' ==> no_comment_addrs(ip_host_map@),
                forall|j: int| 0 <= j < ts.len() ==> token_seq(#[trigger] ts[j]),
            decreases n - k,
        {
            let ghost before = ip_host_map@;
            ip_host_map.add_name(&toks[0], &toks[k]);
            proof {
                assert(toks@[0]@ == ts[0]);
                assert(toks@[k as int]@ == ts[k as int]);
                assert(ts.skip(1).take(k as int).drop_last() =~= ts.skip(1).take(k - 1));
                assert(ts.skip(1).take(k as int).last() == ts[k as int]);
                assert(ip_host_map@ == add_name_spec(before, ts[0], ts[k as int]));
            }
            k = k + 1;
        }
        proof {
            assert(ts.skip(1).take(n - 1) =~= ts.skip(1));
        }
    }
}

/// Parses the lines of an alias file into a fresh table.
pub fn parse_lines(lines: &Vec<String>) -> (t: AliasTable)
    ensures
        t@ == parse_lines_spec(lines.deep_view()),
        table_wf(t@),
        table_clean(t@),
        no_comment_addrs(t@),
{
    let mut t = AliasTable::new();
    let n = lines.len();
    let mut i: usize = 0;
    proof {
        assert(lines.deep_view().take(0) =~= Seq::<Seq<char>>::empty());
    }
    while i < n
        invariant
            i <= n,
            n == lines@.len(),
            t@ == parse_lines_spec(lines.deep_view().take(i as int)),
            table_wf(t@),
            table_clean(t@),
            no_comment_addrs(t@),
        decreases n - i,
    {
        let extracted = extract_hosts(lines[i].as_str());
        proof {
            let line = lines.deep_view()[i as int];
            assert(lines@[i as int]@ == line);
            lemma_trim_props(line);
            if extracted@.len() > 0 {
                lemma_tokens_first_char(extracted@);
            }
            assert(lines.deep_view().take(i + 1).drop_last() =~= lines.deep_view().take(
                i as int,
            ));
            assert(lines.deep_view().take(i + 1).last() == line);
        }
        add_hosts_to_map(extracted.as_str(), &mut t);
        i = i + 1;
    }
    proof {
        assert(lines.deep_view().take(n as int) =~= lines.deep_view());
    }
    t
}

} // verus!
