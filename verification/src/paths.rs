//! Path decisions on plain strings: whether a configured path names a file
//! (else the source's file name is appended), and the backup path, which is
//! the source path with its extension swapped for `old`.
//!
//! A path is read as `/`-separated pieces.  Its file name is the last piece
//! that names something — empty pieces and `.` pieces are skipped, as the
//! standard path parsing skips them — unless that piece is `..`, which names
//! no file.

use vstd::prelude::*;
use vstd::string::*;

verus! {

/// Index right after the last `/` of `s` (`s.len()` when `s` ends with one).
pub open spec fn final_piece_start(s: Seq<char>) -> int
    decreases s.len(),
{
    if s.len() == 0 {
        0
    } else if s.last() == '/' {
        s.len() as int
    } else {
        final_piece_start(s.drop_last())
    }
}

/// `final_piece_start` is wherever a backwards scan for `/` stops.
pub proof fn lemma_final_piece_start_is(s: Seq<char>, q: int)
    requires
        0 <= q <= s.len(),
        forall|m: int| q <= m < s.len() ==> s[m] != '/',
        q > 0 ==> s[q - 1] == '/',
    ensures
        final_piece_start(s) == q,
    decreases s.len(),
{
    if s.len() == 0 {
    } else if s.last() == '/' {
        assert(q == s.len());
    } else {
        assert(q < s.len());
        assert forall|m: int| q <= m < s.drop_last().len() implies s.drop_last()[m] != '/' by {
            assert(s.drop_last()[m] == s[m]);
        }
        lemma_final_piece_start_is(s.drop_last(), q);
    }
}

/// `final_piece_start` lies within the string.
pub proof fn lemma_final_piece_start_bounds(s: Seq<char>)
    ensures
        0 <= final_piece_start(s) <= s.len(),
    decreases s.len(),
{
    if s.len() > 0 && s.last() != '/' {
        lemma_final_piece_start_bounds(s.drop_last());
    }
}

/// The file name of `s`: its last piece that names something, or `None` when
/// no piece does or the last naming piece is `..`.
pub open spec fn file_name_spec(s: Seq<char>) -> Option<Seq<char>>
    decreases s.len(),
    via file_name_spec_decreases
{
    if s.len() == 0 {
        None
    } else {
        let start = final_piece_start(s);
        let f = s.skip(start);
        if f.len() == 0 || f == seq!['.'] {
            if start == 0 {
                None
            } else {
                file_name_spec(s.take(start - 1))
            }
        } else if f == seq!['.', '.'] {
            None
        } else {
            Some(f)
        }
    }
}

#[via_fn]
proof fn file_name_spec_decreases(s: Seq<char>) {
    lemma_final_piece_start_bounds(s);
}

/// `dir` with `name` appended as one more piece.
pub open spec fn join_spec(dir: Seq<char>, name: Seq<char>) -> Seq<char> {
    if dir.len() == 0 {
        name
    } else if dir.last() == '/' {
        dir + name
    } else {
        dir + seq!['/'] + name
    }
}

/// How a configured path is resolved: a path that names a file is used as it
/// stands; one that does not (a directory, a root, a `..` ending) gets the
/// source's file name appended.  `None` when the source names no file either.
pub open spec fn resolve_path_spec(configured: Seq<char>, source: Seq<char>) -> Option<Seq<char>> {
    if file_name_spec(configured) is Some {
        Some(configured)
    } else {
        match file_name_spec(source) {
            Some(base) => Some(join_spec(configured, base)),
            None => None,
        }
    }
}

/// Length of the stem of a file name: everything before the last `.` that
/// does not stand first, the whole name when there is no such dot.
pub open spec fn stem_len(f: Seq<char>) -> int
    decreases f.len(),
{
    if f.len() <= 1 {
        f.len() as int
    } else if f.last() == '.' {
        f.len() - 1
    } else if stem_len(f.drop_last()) == f.drop_last().len() {
        f.len() as int
    } else {
        stem_len(f.drop_last())
    }
}

/// `stem_len` is wherever a backwards scan for an interior `.` stops.
pub proof fn lemma_stem_len_is(f: Seq<char>, c: int)
    requires
        (c == f.len() && forall|m: int| 1 <= m < f.len() ==> f[m] != '.') || (1 <= c < f.len()
            && f[c] == '.' && forall|m: int| c < m < f.len() ==> f[m] != '.'),
    ensures
        stem_len(f) == c,
    decreases f.len(),
{
    if f.len() <= 1 {
        assert(c == f.len());
    } else if f.last() == '.' {
        assert(c == f.len() - 1);
    } else {
        let dl = f.drop_last();
        assert(c != f.len() - 1);
        if c == f.len() {
            assert forall|m: int| 1 <= m < dl.len() implies dl[m] != '.' by {
                assert(dl[m] == f[m]);
            }
            lemma_stem_len_is(dl, dl.len() as int);
        } else {
            assert(dl[c] == f[c]);
            assert forall|m: int| c < m < dl.len() implies dl[m] != '.' by {
                assert(dl[m] == f[m]);
            }
            lemma_stem_len_is(dl, c);
            assert(stem_len(dl) != dl.len());
        }
    }
}

/// The backup path: the extension of the final piece swapped for `old`.  A
/// path whose final piece is empty, `.` or `..` is returned unchanged.
pub open spec fn backup_path_spec(s: Seq<char>) -> Seq<char> {
    let start = final_piece_start(s);
    let f = s.skip(start);
    if f.len() == 0 || f == seq!['.'] || f == seq!['.', '.'] {
        s
    } else {
        s.take(start + stem_len(f)) + ".old"@
    }
}

/// Finds the start of the final `/`-separated piece of `s@.take(p)`.
fn scan_piece_start(s: &str, p: usize) -> (q: usize)
    requires
        p <= s@.len(),
    ensures
        q <= p,
        final_piece_start(s@.take(p as int)) == q,
        q > 0 ==> s@[q - 1] == '/',
        forall|m: int| q <= m < p ==> s@[m] != '/',
{
    let mut q = p;
    while q > 0 && s.get_char(q - 1) != '/'
        invariant
            q <= p <= s@.len(),
            forall|m: int| q <= m < p ==> s@[m] != '/',
        decreases q,
    {
        q = q - 1;
    }
    proof {
        let t = s@.take(p as int);
        assert forall|m: int| q <= m < t.len() implies t[m] != '/' by {
            assert(t[m] == s@[m]);
        }
        if q > 0 {
            assert(t[q - 1] == s@[q - 1]);
        }
        lemma_final_piece_start_is(t, q as int);
    }
    q
}

/// The path's file name, as [`file_name_spec`] defines it.
pub fn path_file_name(path: &str) -> (r: Option<String>)
    ensures
        match r {
            Some(f) => file_name_spec(path@) == Some(f@),
            None => file_name_spec(path@) is None,
        },
{
    let n = path.unicode_len();
    let mut p = n;
    proof {
        assert(path@.take(n as int) =~= path@);
    }
    loop
        invariant
            p <= n,
            n == path@.len(),
            file_name_spec(path@) == file_name_spec(path@.take(p as int)),
        decreases p,
    {
        if p == 0 {
            proof {
                assert(path@.take(0) =~= Seq::<char>::empty());
            }
            return None;
        }
        let q = scan_piece_start(path, p);
        let ghost t = path@.take(p as int);
        let ghost f = t.skip(q as int);
        proof {
            assert(f =~= path@.subrange(q as int, p as int));
        }
        let len = p - q;
        let is_dot = len == 1 && path.get_char(q) == '.';
        let is_dotdot = len == 2 && path.get_char(q) == '.' && path.get_char(q + 1) == '.';
        proof {
            if is_dot {
                assert(f =~= seq!['.']);
            } else if len == 1 {
                assert(f[0] != '.');
                assert(f != seq!['.']);
            }
            if is_dotdot {
                assert(f =~= seq!['.', '.']);
            } else if len == 2 {
                assert(f != seq!['.', '.']);
            }
        }
        if len == 0 || is_dot {
            if q == 0 {
                proof {
                    assert(file_name_spec(t) is None);
                }
                return None;
            }
            proof {
                assert(t.take(q - 1) =~= path@.take(q - 1));
            }
            p = q - 1;
        } else if is_dotdot {
            proof {
                assert(file_name_spec(t) is None);
            }
            return None;
        } else {
            let piece = path.substring_char(q, p);
            proof {
                assert(file_name_spec(t) == Some(piece@));
            }
            return Some(String::from_str(piece));
        }
    }
}

/// Resolves a configured temp or target path: one that names a file is used
/// as it stands; one that names none (a directory, a root, a `..` ending)
/// gets the source's file name appended.  `None` when the source path names
/// no file either.
pub fn resolve_file_path(configured: &str, source: &str) -> (r: Option<String>)
    ensures
        match r {
            Some(p) => resolve_path_spec(configured@, source@) == Some(p@),
            None => resolve_path_spec(configured@, source@) is None,
        },
{
    if path_file_name(configured).is_some() {
        return Some(String::from_str(configured));
    }
    let base = match path_file_name(source) {
        Some(base) => base,
        None => {
            return None;
        },
    };
    let mut out = String::from_str(configured);
    let n = configured.unicode_len();
    if n > 0 && configured.get_char(n - 1) != '/' {
        out.append("/");
        proof {
            reveal_strlit("/");
            assert("/"@ =~= seq!['/']);
        }
    }
    out.append(base.as_str());
    proof {
        assert(out@ =~= join_spec(configured@, base@));
    }
    Some(out)
}

/// The backup path for a source path: its extension swapped for `old`
/// (`old` appended when the file name has none).
pub fn backup_path(source: &str) -> (r: String)
    ensures
        r@ == backup_path_spec(source@),
{
    let n = source.unicode_len();
    let q = scan_piece_start(source, n);
    proof {
        assert(source@.take(n as int) =~= source@);
        assert(final_piece_start(source@) == q);
    }
    let ghost f = source@.skip(q as int);
    let len = n - q;
    let is_dot = len == 1 && source.get_char(q) == '.';
    let is_dotdot = len == 2 && source.get_char(q) == '.' && source.get_char(q + 1) == '.';
    proof {
        if is_dot {
            assert(f =~= seq!['.']);
        } else if len == 1 {
            assert(f[0] == source@[q as int]);
            assert(f != seq!['.']);
        }
        if is_dotdot {
            assert(f =~= seq!['.', '.']);
        } else if len == 2 {
            assert(f[0] == source@[q as int]);
            assert(f[1] == source@[q + 1]);
            assert(f != seq!['.', '.']);
        }
    }
    if len == 0 || is_dot || is_dotdot {
        return String::from_str(source);
    }
    let mut j = n;
    while j > q + 1 && source.get_char(j - 1) != '.'
        invariant
            q + 1 <= j <= n,
            n == source@.len(),
            forall|m: int| j <= m < n ==> source@[m] != '.',
        decreases j,
    {
        j = j - 1;
    }
    let cut = if j > q + 1 {
        j - 1
    } else {
        n
    };
    proof {
        assert forall|m: int| cut - q < m < f.len() implies f[m] != '.' by {
            assert(f[m] == source@[q + m]);
        }
        if cut < n {
            assert(f[cut - q] == source@[cut as int]);
        } else {
            assert forall|m: int| 1 <= m < f.len() implies f[m] != '.' by {
                assert(f[m] == source@[q + m]);
            }
        }
        lemma_stem_len_is(f, cut - q);
    }
    let mut out = String::from_str(source.substring_char(0, cut));
    out.append(".old");
    proof {
        reveal_strlit(".old");
        assert(out@ =~= backup_path_spec(source@));
    }
    out
}

} // verus!
