//! Unix paths held as text: joining, the final file name, and components.

use vstd::prelude::*;
use crate::text::{texts, same_text, chars_of, string_from, last_index_in, last_index_of, lemma_last_index_of_bounds, push_char};

verus! {

/// `PathBuf::push` on Unix: an absolute `p` replaces `base`; otherwise `p`
/// follows `base`, with a `/` between them unless `base` is empty or already
/// ends in one.
pub open spec fn join_spec(base: Seq<char>, p: Seq<char>) -> Seq<char> {
    if p.len() > 0 && p[0] == '/' {
        p
    } else if base.len() == 0 || base.last() == '/' {
        base + p
    } else {
        base + seq!['/'] + p
    }
}

/// The last component of `s` that is neither empty nor `.`, reading the
/// path from its end.
pub open spec fn last_component(s: Seq<char>) -> Option<Seq<char>>
    decreases s.len(),
{
    let k = last_index_of(s, '/');
    proof {
        lemma_last_index_of_bounds(s, '/');
    }
    if k < 0 {
        if s.len() == 0 || s == seq!['.'] {
            None
        } else {
            Some(s)
        }
    } else {
        let seg = s.subrange(k + 1, s.len() as int);
        if seg.len() == 0 || seg == seq!['.'] {
            last_component(s.subrange(0, k))
        } else {
            Some(seg)
        }
    }
}

/// `Path::file_name`: the final component, or none when the path ends in
/// `..` or has no normal component.
pub open spec fn file_name_spec(s: Seq<char>) -> Option<Seq<char>> {
    match last_component(s) {
        Some(c) => if c == seq!['.', '.'] {
            None
        } else {
            Some(c)
        },
        None => None,
    }
}

/// `base.join(p)`.
pub fn join_path(base: &str, p: &str) -> (r: String)
    ensures
        r@ == join_spec(base@, p@),
{
    let pv = chars_of(p);
    let bv = chars_of(base);
    if pv.len() > 0 && pv[0] == '/' {
        return string_from(&pv, 0, pv.len());
    }
    let mut r = string_from(&bv, 0, bv.len());
    if bv.len() > 0 && bv[bv.len() - 1] != '/' {
        push_char(&mut r, '/');
    }
    let ghost start = r@;
    for i in 0..pv.len()
        invariant
            r@ == start + pv@.subrange(0, i as int),
    {
        push_char(&mut r, pv[i]);
    }
    assert(bv@.subrange(0, bv@.len() as int) =~= bv@);
    assert(pv@.subrange(0, pv@.len() as int) =~= pv@);
    r
}

/// Whether `v[from..to]` is empty or the single character `.`.
fn skipped_segment(v: &Vec<char>, from: usize, to: usize) -> (r: bool)
    requires
        from <= to <= v.len(),
    ensures
        r == (v@.subrange(from as int, to as int).len() == 0 || v@.subrange(from as int, to as int)
            == seq!['.']),
{
    if from == to {
        return true;
    }
    let r = to - from == 1 && v[from] == '.';
    proof {
        let seg = v@.subrange(from as int, to as int);
        if r {
            assert(seg =~= seq!['.']);
        } else if seg == seq!['.'] {
            assert(seq!['.'].len() == 1 && seq!['.'][0] == '.');
            assert(seg.len() == 1);
            assert(seg[0] == v@[from as int]);
        }
    }
    r
}

/// `path.file_name()`.
pub fn file_name(path: &str) -> (r: Option<String>)
    ensures
        match r {
            Some(t) => file_name_spec(path@) == Some(t@),
            None => file_name_spec(path@) is None,
        },
{
    let v = chars_of(path);
    let mut end = v.len();
    assert(v@.subrange(0, end as int) =~= v@);
    loop
        invariant
            end <= v.len(),
            v@ == path@,
            last_component(path@) == last_component(v@.subrange(0, end as int)),
        decreases end,
    {
        let ghost s = v@.subrange(0, end as int);
        match last_index_in(&v, end, '/') {
            None => {
                if skipped_segment(&v, 0, end) {
                    return None;
                }
                let c = string_from(&v, 0, end);
                if end == 2 && v[0] == '.' && v[1] == '.' {
                    assert(c@ =~= seq!['.', '.']);
                    return None;
                }
                proof {
                    if c@ == seq!['.', '.'] {
                        assert(c@[0] == v@[0] && c@[1] == v@[1]);
                    }
                }
                return Some(c);
            },
            Some(k) => {
                proof {
                    lemma_last_index_of_bounds(s, '/');
                    assert(s.subrange(k + 1, s.len() as int) =~= v@.subrange(k + 1, end as int));
                    assert(s.subrange(0, k as int) =~= v@.subrange(0, k as int));
                }
                if skipped_segment(&v, k + 1, end) {
                    end = k;
                } else {
                    let c = string_from(&v, k + 1, end);
                    if end - (k + 1) == 2 && v[k + 1] == '.' && v[k + 2] == '.' {
                        assert(c@ =~= seq!['.', '.']);
                        return None;
                    }
                    proof {
                        if c@ == seq!['.', '.'] {
                            assert(c@[0] == v@[k + 1] && c@[1] == v@[k + 2]);
                        }
                    }
                    return Some(c);
                }
            },
        }
    }
}


/// The pieces of `s` between `/` separators completed so far, and the piece
/// still open.
pub open spec fn piece_state(s: Seq<char>) -> (Seq<Seq<char>>, Seq<char>)
    decreases s.len(),
{
    if s.len() == 0 {
        (seq![], seq![])
    } else {
        let (done, cur) = piece_state(s.drop_last());
        if s.last() == '/' {
            (done.push(cur), seq![])
        } else {
            (done, cur.push(s.last()))
        }
    }
}

/// The pieces that are components: not empty, and not `.` unless it is the
/// very first piece (a leading current-directory component).
pub open spec fn kept_pieces(ps: Seq<Seq<char>>) -> Seq<Seq<char>>
    decreases ps.len(),
{
    if ps.len() == 0 {
        seq![]
    } else {
        let rest = kept_pieces(ps.drop_last());
        let seg = ps.last();
        if seg.len() > 0 && (seg != seq!['.'] || ps.len() == 1) {
            rest.push(seg)
        } else {
            rest
        }
    }
}

/// `Path::components` on Unix, each component by its text: `/` for the root,
/// then the pieces between separators, without empty pieces and without `.`
/// past the start.
pub open spec fn components_spec(s: Seq<char>) -> Seq<Seq<char>> {
    let (done, cur) = piece_state(s);
    let root: Seq<Seq<char>> = if s.len() > 0 && s[0] == '/' {
        seq![seq!['/']]
    } else {
        seq![]
    };
    root + kept_pieces(done.push(cur))
}

proof fn lemma_is_dot(seg: Seq<char>)
    ensures
        (seg == seq!['.']) == (seg.len() == 1 && seg[0] == '.'),
{
    if seg.len() == 1 && seg[0] == '.' {
        assert(seg =~= seq!['.']);
    }
}

/// The components of `path` (`Path::components`).
pub fn path_components(path: &str) -> (r: Vec<String>)
    ensures
        texts(r@) == components_spec(path@),
{
    let v = chars_of(path);
    let n = v.len();
    let mut kept: Vec<String> = Vec::new();
    if n > 0 && v[0] == '/' {
        let mut root = String::new();
        push_char(&mut root, '/');
        kept.push(root);
    }
    let ghost root: Seq<Seq<char>> = texts(kept@);
    let mut cur: Vec<char> = Vec::new();
    let mut count: usize = 0;
    for i in 0..n
        invariant
            n == v@.len(),
            v@ == path@,
            root == (if path@.len() > 0 && path@[0] == '/' {
                seq![seq!['/']]
            } else {
                seq![]
            }),
            count == piece_state(v@.subrange(0, i as int)).0.len(),
            count <= i,
            cur@ == piece_state(v@.subrange(0, i as int)).1,
            texts(kept@) == root + kept_pieces(piece_state(v@.subrange(0, i as int)).0),
    {
        assert(v@.subrange(0, i + 1).drop_last() =~= v@.subrange(0, i as int));
        let c = v[i];
        if c == '/' {
            let ghost done = piece_state(v@.subrange(0, i as int)).0;
            let k = cur.len();
            let keep = k > 0 && !(k == 1 && cur[0] == '.' && count > 0);
            proof {
                let seg = cur@;
                assert(done.push(seg).drop_last() =~= done);
                lemma_is_dot(seg);
                assert(kept_pieces(done.push(seg)) == if keep {
                    kept_pieces(done).push(seg)
                } else {
                    kept_pieces(done)
                });
            }
            if keep {
                let piece = string_from(&cur, 0, k);
                assert(cur@.subrange(0, k as int) =~= cur@);
                let ghost before = texts(kept@);
                kept.push(piece);
                assert(texts(kept@) =~= before.push(cur@));
            }
            assert(texts(kept@) =~= root + kept_pieces(piece_state(v@.subrange(0, i + 1)).0));
            cur = Vec::new();
            count += 1;
        } else {
            cur.push(c);
        }
    }
    assert(v@.subrange(0, n as int) =~= v@);
    let ghost done = piece_state(v@).0;
    let k = cur.len();
    let keep = k > 0 && !(k == 1 && cur[0] == '.' && count > 0);
    proof {
        let seg = cur@;
        assert(done.push(seg).drop_last() =~= done);
        lemma_is_dot(seg);
        assert(kept_pieces(done.push(seg)) == if keep {
            kept_pieces(done).push(seg)
        } else {
            kept_pieces(done)
        });
    }
    if keep {
        let piece = string_from(&cur, 0, k);
        assert(cur@.subrange(0, k as int) =~= cur@);
        let ghost before = texts(kept@);
        kept.push(piece);
        assert(texts(kept@) =~= before.push(cur@));
    }
    assert(texts(kept@) =~= components_spec(path@));
    kept
}


/// Where a path stands with respect to a base directory.
pub enum Relative {
    /// The base is not a prefix of the path (`strip_prefix` fails).
    Outside,
    /// The path is the base itself.
    AtBase,
    /// The path lies under the base; this is its first component there.
    Below(String),
}

/// The position of a path with components `p` relative to a base with
/// components `b`, as `Path::strip_prefix` then `components().next()` see it.
pub open spec fn relative_spec(p: Seq<Seq<char>>, b: Seq<Seq<char>>) -> Option<Option<Seq<char>>> {
    if b.len() <= p.len() && p.subrange(0, b.len() as int) == b {
        if p.len() == b.len() {
            Some(None)
        } else {
            Some(Some(p[b.len() as int]))
        }
    } else {
        None
    }
}

pub open spec fn relative_view(r: Relative) -> Option<Option<Seq<char>>> {
    match r {
        Relative::Outside => None,
        Relative::AtBase => Some(None),
        Relative::Below(name) => Some(Some(name@)),
    }
}

/// A path made of the base's components, then `name`, then any others, lies
/// below the base, under `name`.
pub proof fn lemma_relative_below(base: Seq<Seq<char>>, name: Seq<char>, rest: Seq<Seq<char>>)
    ensures
        relative_spec(base + seq![name] + rest, base) == Some(Some(name)),
{
    let p = base + seq![name] + rest;
    assert(p.subrange(0, base.len() as int) =~= base);
    assert(p[base.len() as int] == name);
}

/// The base itself is at the base.
pub proof fn lemma_relative_at_base(base: Seq<Seq<char>>)
    ensures
        relative_spec(base, base) == Some(None::<Seq<char>>),
{
    assert(base.subrange(0, base.len() as int) =~= base);
}

/// The first component of `path` below `base`.
pub fn relative_first(path: &str, base: &str) -> (r: Relative)
    ensures
        relative_view(r) == relative_spec(components_spec(path@), components_spec(base@)),
{
    let p = path_components(path);
    let b = path_components(base);
    let ghost pv = texts(p@);
    let ghost bv = texts(b@);
    if b.len() > p.len() {
        return Relative::Outside;
    }
    for i in 0..b.len()
        invariant
            b@.len() <= p@.len(),
            pv == texts(p@),
            bv == texts(b@),
            pv == components_spec(path@),
            bv == components_spec(base@),
            forall|j: int| 0 <= j < i ==> pv[j] == bv[j],
    {
        if !same_text(p[i].as_str(), b[i].as_str()) {
            assert(pv[i as int] == p@[i as int]@ && bv[i as int] == b@[i as int]@);
            assert(pv.subrange(0, bv.len() as int)[i as int] != bv[i as int]);
            return Relative::Outside;
        }
    }
    assert(pv.subrange(0, bv.len() as int) =~= bv);
    if p.len() == b.len() {
        Relative::AtBase
    } else {
        let name = p[b.len()].clone();
        Relative::Below(name)
    }
}

} // verus!
