//! Peer records reported by the mesh-networking status tool: classifying the
//! tool probe, extracting records from the status output, and merging them
//! into an [`AliasTable`].

use crate::table::{
    add_name_spec, has_name, index_of_addr, lemma_add_name_wf, lemma_index_of_addr,
    lemma_index_of_addr_is, no_comment_addrs, table_clean, table_wf, AliasTable, EntryModel,
};
use crate::text::{
    lemma_tokens_acc_clean, split_lines, split_lines_spec, split_tokens, token_seq, tokens,
};
use vstd::prelude::*;
use vstd::string::*;

verus! {

/// Mathematical model of a peer record.
#[verifier::ext_equal]
pub ghost struct PeerModel {
    pub address: Seq<char>,
    pub name: Seq<char>,
}

/// One peer reported by the status output: an address and a name.
#[derive(Debug, Clone, PartialEq, Eq)]
pub struct PeerRecord {
    pub address: String,
    pub name: String,
}

impl View for PeerRecord {
    type V = PeerModel;

    open spec fn view(&self) -> PeerModel {
        PeerModel { address: self.address@, name: self.name@ }
    }
}

impl DeepView for PeerRecord {
    type V = PeerModel;

    open spec fn deep_view(&self) -> PeerModel {
        self.view()
    }
}

/// A record whose address and name are whitespace-free tokens.
pub open spec fn peer_clean(p: PeerModel) -> bool {
    token_seq(p.address) && token_seq(p.name)
}

/// A record whose address would not be taken for a comment when re-parsed.
pub open spec fn peer_uncommented(p: PeerModel) -> bool {
    p.address.len() > 0 && p.address[0] != '#'
}

/// Peer records contributed by one status line: its first two tokens, when
/// the line has at least two; nothing otherwise.
pub open spec fn peers_of_line(l: Seq<char>) -> Seq<PeerModel> {
    let ts = tokens(l);
    if ts.len() >= 2 {
        seq![PeerModel { address: ts[0], name: ts[1] }]
    } else {
        Seq::empty()
    }
}

/// Peer records contributed by a sequence of status lines, in order.
pub open spec fn peers_of_lines(ls: Seq<Seq<char>>) -> Seq<PeerModel>
    decreases ls.len(),
{
    if ls.len() == 0 {
        Seq::empty()
    } else {
        peers_of_lines(ls.drop_last()) + peers_of_line(ls.last())
    }
}

/// The peer records contained in the status output text.
pub open spec fn peers_spec(s: Seq<char>) -> Seq<PeerModel> {
    peers_of_lines(split_lines_spec(s))
}

/// Every extracted peer record is made of whitespace-free tokens.
pub proof fn lemma_peers_of_lines_clean(ls: Seq<Seq<char>>)
    ensures
        forall|j: int|
            0 <= j < peers_of_lines(ls).len() ==> peer_clean(#[trigger] peers_of_lines(ls)[j]),
    decreases ls.len(),
{
    if ls.len() > 0 {
        lemma_peers_of_lines_clean(ls.drop_last());
        lemma_tokens_acc_clean(ls.last(), Seq::empty());
        let front = peers_of_lines(ls.drop_last());
        assert forall|j: int| 0 <= j < peers_of_lines(ls).len()
            implies peer_clean(#[trigger] peers_of_lines(ls)[j]) by {
            if j < front.len() {
                assert(peers_of_lines(ls)[j] == front[j]);
            } else {
                assert(peers_of_lines(ls)[j] == peers_of_line(ls.last())[j - front.len()]);
            }
        }
    }
}

/// How the availability probe of the external tool ended, as observed by the
/// caller that ran it.
#[derive(Debug, Clone, Copy, PartialEq, Eq)]
pub enum ProbeOutcome {
    /// The tool ran; the payload says whether it exited successfully.
    Exited(bool),
    /// The tool's binary was not found.
    LaunchNotFound,
    /// The tool could not be launched for another reason.
    LaunchFailed,
}

/// Verdict on the external tool.
#[derive(Debug, Clone, Copy, PartialEq, Eq)]
pub enum ToolStatus {
    /// The probe exited successfully: the tool is usable.
    Available,
    /// The binary is missing.
    NotFound,
    /// The binary exists but the probe exited with failure.
    Unhealthy,
    /// The probe could not be run at all.
    ProbeFailed,
}

/// Verdict a probe outcome maps to.
pub open spec fn classify_tool_spec(p: ProbeOutcome) -> ToolStatus {
    match p {
        ProbeOutcome::Exited(ok) => if ok {
            ToolStatus::Available
        } else {
            ToolStatus::Unhealthy
        },
        ProbeOutcome::LaunchNotFound => ToolStatus::NotFound,
        ProbeOutcome::LaunchFailed => ToolStatus::ProbeFailed,
    }
}

/// Decides whether the external tool is usable from the way its
/// availability probe ended.
pub fn classify_tool(p: &ProbeOutcome) -> (s: ToolStatus)
    ensures
        s == classify_tool_spec(*p),
{
    match p {
        ProbeOutcome::Exited(ok) => if *ok {
            ToolStatus::Available
        } else {
            ToolStatus::Unhealthy
        },
        ProbeOutcome::LaunchNotFound => ToolStatus::NotFound,
        ProbeOutcome::LaunchFailed => ToolStatus::ProbeFailed,
    }
}

/// Failures of the status-listing stage.
#[derive(Debug, Clone, Copy, PartialEq, Eq)]
pub enum PeerError {
    /// The status command exited with failure.
    CommandFailed,
    /// The status command succeeded but listed no peer.
    NoPeersFound,
}

/// Extracts the peer records from the status command's captured output.
/// For each line, the first token is an address and the second a peer name;
/// lines with fewer than two tokens contribute nothing.  A run that exited
/// with failure, or one whose output holds no record, is an error.
pub fn extract_peer_records(exit_success: bool, output: &str) -> (r: Result<
    Vec<PeerRecord>,
    PeerError,
>)
    ensures
        match r {
            Ok(v) => exit_success && v.deep_view() == peers_spec(output@) && v@.len() > 0,
            Err(PeerError::CommandFailed) => !exit_success,
            Err(PeerError::NoPeersFound) => exit_success && peers_spec(output@).len() == 0,
        },
{
    if !exit_success {
        return Err(PeerError::CommandFailed);
    }
    let lines = split_lines(output);
    let ghost ls = split_lines_spec(output@);
    let n = lines.len();
    let mut recs: Vec<PeerRecord> = Vec::new();
    let mut i: usize = 0;
    proof {
        assert(ls.take(0) =~= Seq::<Seq<char>>::empty());
    }
    while i < n
        invariant
            i <= n,
            n == lines@.len(),
            lines.deep_view() == ls,
            recs.deep_view() == peers_of_lines(ls.take(i as int)),
        decreases n - i,
    {
        let ghost prev = recs.deep_view();
        let toks = split_tokens(lines[i].as_str());
        proof {
            assert(lines@[i as int]@ == ls[i as int]);
            assert(ls.take(i + 1).drop_last() =~= ls.take(i as int));
            assert(ls.take(i + 1).last() == ls[i as int]);
        }
        if toks.len() >= 2 {
            let rec = PeerRecord { address: toks[0].clone(), name: toks[1].clone() };
            proof {
                assert(rec@ == peers_of_line(ls[i as int])[0]);
            }
            recs.push(rec);
            proof {
                assert(recs.deep_view() =~= prev + peers_of_line(ls[i as int]));
            }
        } else {
            proof {
                assert(prev + peers_of_line(ls[i as int]) =~= prev);
            }
        }
        i = i + 1;
    }
    proof {
        assert(ls.take(n as int) =~= ls);
    }
    if recs.len() == 0 {
        return Err(PeerError::NoPeersFound);
    }
    Ok(recs)
}

/// Result of folding each record of `rs` into `t` in order.
pub open spec fn merge_spec(t: Seq<EntryModel>, rs: Seq<PeerModel>) -> Seq<EntryModel>
    decreases rs.len(),
{
    if rs.len() == 0 {
        t
    } else {
        add_name_spec(merge_spec(t, rs.drop_last()), rs.last().address, rs.last().name)
    }
}

/// Folds the peer records into the table: an unknown address gains an entry,
/// an unknown name is appended to its address's entry, and a pair the table
/// already holds changes nothing.  Nothing is ever removed.
pub fn merge_peers(table: &mut AliasTable, peers: &Vec<PeerRecord>)
    requires
        table_wf(old(table)@),
    ensures
        final(table)@ == merge_spec(old(table)@, peers.deep_view()),
        table_wf(final(table)@),
        table_clean(old(table)@) && (forall|j: int|
            0 <= j < peers.deep_view().len() ==> peer_clean(#[trigger] peers.deep_view()[j]))
            ==> table_clean(final(table)@),
        no_comment_addrs(old(table)@) && (forall|j: int|
            0 <= j < peers.deep_view().len() ==> peer_uncommented(#[trigger] peers.deep_view()[j]))
            ==> no_comment_addrs(final(table)@),
{
    let ghost t0 = table@;
    let ghost rs = peers.deep_view();
    let n = peers.len();
    let mut i: usize = 0;
    proof {
        assert(rs.take(0) =~= Seq::<PeerModel>::empty());
    }
    while i < n
        invariant
            i <= n,
            n == peers@.len(),
            peers.deep_view() == rs,
            table@ == merge_spec(t0, rs.take(i as int)),
            table_wf(table@),
            table_clean(t0) && (forall|j: int| 0 <= j < rs.len() ==> peer_clean(#[trigger] rs[j]))
                ==> table_clean(table@),
            no_comment_addrs(t0) && (forall|j: int|
                0 <= j < rs.len() ==> peer_uncommented(#[trigger] rs[j])) ==> no_comment_addrs(
                table@,
            ),
        decreases n - i,
    {
        let ghost before = table@;
        table.add_name(&peers[i].address, &peers[i].name);
        proof {
            assert(peers@[i as int]@ == rs[i as int]);
            assert(rs.take(i + 1).drop_last() =~= rs.take(i as int));
            assert(rs.take(i + 1).last() == rs[i as int]);
            assert(table@ == add_name_spec(before, rs[i as int].address, rs[i as int].name));
        }
        i = i + 1;
    }
    proof {
        assert(rs.take(n as int) =~= rs);
    }
}

/// Recording one pair never removes another: a pair the table holds is still
/// held after any `add_name_spec`.
pub proof fn lemma_add_name_monotone(
    t: Seq<EntryModel>,
    a: Seq<char>,
    n: Seq<char>,
    a2: Seq<char>,
    n2: Seq<char>,
)
    requires
        has_name(t, a2, n2),
    ensures
        has_name(add_name_spec(t, a, n), a2, n2),
{
    lemma_index_of_addr(t, a);
    lemma_index_of_addr(t, a2);
    let i = index_of_addr(t, a);
    let i2 = index_of_addr(t, a2);
    let t2 = add_name_spec(t, a, n);
    if i == -1 {
        assert forall|j: int| 0 <= j < i2 implies t2[j].address != a2 by {
            assert(t2[j] == t[j]);
        }
        assert(t2[i2] == t[i2]);
        lemma_index_of_addr_is(t2, a2, i2);
    } else if t[i].names.contains(n) {
    } else {
        assert forall|j: int| 0 <= j < i2 implies t2[j].address != a2 by {
            assert(t2[j].address == t[j].address);
        }
        assert(t2[i2].address == t[i2].address);
        lemma_index_of_addr_is(t2, a2, i2);
        let q = choose|q: int| 0 <= q < t[i2].names.len() && t[i2].names[q] == n2;
        if i2 == i {
            assert(t2[i2].names[q] == n2);
        } else {
            assert(t2[i2] == t[i2]);
            assert(t2[i2].names[q] == n2);
        }
    }
}

/// Merging preserves the table invariant.
pub proof fn lemma_merge_wf(t: Seq<EntryModel>, rs: Seq<PeerModel>)
    requires
        table_wf(t),
    ensures
        table_wf(merge_spec(t, rs)),
    decreases rs.len(),
{
    if rs.len() > 0 {
        lemma_merge_wf(t, rs.drop_last());
        lemma_add_name_wf(merge_spec(t, rs.drop_last()), rs.last().address, rs.last().name);
    }
}

/// After a merge, the table holds every merged pair.
pub proof fn lemma_merge_contains_all(t: Seq<EntryModel>, rs: Seq<PeerModel>)
    requires
        table_wf(t),
    ensures
        forall|j: int|
            0 <= j < rs.len() ==> has_name(
                merge_spec(t, rs),
                (#[trigger] rs[j]).address,
                rs[j].name,
            ),
    decreases rs.len(),
{
    if rs.len() > 0 {
        let dl = rs.drop_last();
        let m = merge_spec(t, dl);
        lemma_merge_contains_all(t, dl);
        lemma_merge_wf(t, dl);
        lemma_add_name_wf(m, rs.last().address, rs.last().name);
        assert forall|j: int| 0 <= j < rs.len() implies has_name(
            merge_spec(t, rs),
            (#[trigger] rs[j]).address,
            rs[j].name,
        ) by {
            if j < rs.len() - 1 {
                assert(rs[j] == dl[j]);
                lemma_add_name_monotone(
                    m,
                    rs.last().address,
                    rs.last().name,
                    dl[j].address,
                    dl[j].name,
                );
            }
        }
    }
}

/// Merging records the table already holds changes nothing.
pub proof fn lemma_merge_noop(t: Seq<EntryModel>, rs: Seq<PeerModel>)
    requires
        forall|j: int| 0 <= j < rs.len() ==> has_name(t, (#[trigger] rs[j]).address, rs[j].name),
    ensures
        merge_spec(t, rs) == t,
    decreases rs.len(),
{
    if rs.len() > 0 {
        let dl = rs.drop_last();
        assert forall|j: int| 0 <= j < dl.len() implies has_name(
            t,
            (#[trigger] dl[j]).address,
            dl[j].name,
        ) by {
            assert(dl[j] == rs[j]);
        }
        lemma_merge_noop(t, dl);
        assert(has_name(t, rs.last().address, rs.last().name));
    }
}

/// However a table is reached — parsing any file, then merging any peer
/// list — no address ever lists the same name twice.
pub proof fn lemma_no_duplicate_names(ls: Seq<Seq<char>>, rs: Seq<PeerModel>)
    ensures
        table_wf(merge_spec(crate::parse::parse_lines_spec(ls), rs)),
        forall|i: int|
            0 <= i < merge_spec(crate::parse::parse_lines_spec(ls), rs).len()
                ==> crate::table::names_distinct(
                #[trigger] merge_spec(crate::parse::parse_lines_spec(ls), rs)[i].names,
            ),
{
    crate::parse::lemma_parse_wf(ls);
    lemma_merge_wf(crate::parse::parse_lines_spec(ls), rs);
}

/// Merging the same peer list twice gives the same table as merging it once.
pub proof fn lemma_merge_idempotent(t: Seq<EntryModel>, rs: Seq<PeerModel>)
    requires
        table_wf(t),
    ensures
        merge_spec(merge_spec(t, rs), rs) == merge_spec(t, rs),
{
    let m = merge_spec(t, rs);
    lemma_merge_wf(t, rs);
    lemma_merge_contains_all(t, rs);
    lemma_merge_noop(m, rs);
}

} // verus!
