//! Splitting a path into its segments.
//!
//! A path breaks at `/` separators; empty pieces are dropped, a `.` piece
//! is normalized away unless it opens a relative path, and an absolute
//! path contributes a leading root segment of its own.

use vstd::prelude::*;

verus! {

/// Index of the first `/` in `s`, or `s.len()` when there is none.
pub open spec fn first_slash(s: Seq<char>) -> int
    decreases s.len(),
{
    if s.len() == 0 {
        0
    } else if s[0] == '/' {
        0
    } else {
        1 + first_slash(s.drop_first())
    }
}

/// The pieces of `s` between `/` separators, with empty pieces dropped.
pub open spec fn split_slash(s: Seq<char>) -> Seq<Seq<char>>
    decreases s.len(),
    via split_slash_dec
{
    if s.len() == 0 {
        Seq::empty()
    } else {
        let k = first_slash(s);
        let piece = s.subrange(0, k);
        let rest = if k >= s.len() {
            Seq::<Seq<char>>::empty()
        } else {
            split_slash(s.subrange(k + 1, s.len() as int))
        };
        if piece.len() == 0 {
            rest
        } else {
            seq![piece] + rest
        }
    }
}

#[via_fn]
proof fn split_slash_dec(s: Seq<char>) {
    lemma_first_slash(s);
}

/// The pieces with every `.` piece dropped.
pub open spec fn drop_curdir(ps: Seq<Seq<char>>) -> Seq<Seq<char>>
    decreases ps.len(),
{
    if ps.len() == 0 {
        Seq::empty()
    } else if ps[0] == seq!['.'] {
        drop_curdir(ps.drop_first())
    } else {
        seq![ps[0]] + drop_curdir(ps.drop_first())
    }
}

pub proof fn lemma_drop_curdir_push(ps: Seq<Seq<char>>, x: Seq<char>)
    ensures
        drop_curdir(ps.push(x)) == drop_curdir(ps) + (if x == seq!['.'] {
            Seq::<Seq<char>>::empty()
        } else {
            seq![x]
        }),
    decreases ps.len(),
{
    if ps.len() == 0 {
        assert(ps.push(x)[0] == x);
        assert(ps =~= Seq::<Seq<char>>::empty());
        assert(ps.push(x).drop_first() =~= ps);
        if x == seq!['.'] {
            assert(drop_curdir(ps.push(x)) =~= drop_curdir(ps) + Seq::<Seq<char>>::empty());
        } else {
            assert(drop_curdir(ps.push(x)) =~= drop_curdir(ps) + seq![x]);
        }
    } else {
        assert(ps.push(x)[0] == ps[0]);
        assert(ps.push(x).drop_first() =~= ps.drop_first().push(x));
        lemma_drop_curdir_push(ps.drop_first(), x);
        if ps[0] == seq!['.'] {
        } else {
            if x == seq!['.'] {
                assert(drop_curdir(ps.push(x)) =~= drop_curdir(ps) + Seq::<Seq<char>>::empty());
            } else {
                assert(drop_curdir(ps.push(x)) =~= drop_curdir(ps) + seq![x]);
            }
        }
    }
}

/// The segments of a path, as a walk of its components yields them: the
/// non-empty pieces with `.` normalized away, preceded by a root segment
/// for an absolute path, or by a `.` segment when one opens a relative
/// path.
pub open spec fn spec_segments(s: Seq<char>) -> Seq<Seq<char>> {
    let ps = split_slash(s);
    if s.len() > 0 && s[0] == '/' {
        seq![seq!['/']] + drop_curdir(ps)
    } else if ps.len() > 0 && ps[0] == seq!['.'] {
        seq![seq!['.']] + drop_curdir(ps)
    } else {
        drop_curdir(ps)
    }
}

/// `first_slash` is the least index holding `/`, and is in range.
pub proof fn lemma_first_slash(s: Seq<char>)
    ensures
        0 <= first_slash(s) <= s.len(),
        forall|j: int| 0 <= j < first_slash(s) ==> s[j] != '/',
        first_slash(s) < s.len() ==> s[first_slash(s)] == '/',
    decreases s.len(),
{
    if s.len() > 0 && s[0] != '/' {
        lemma_first_slash(s.drop_first());
        let k = first_slash(s);
        assert forall|j: int| 0 <= j < k implies s[j] != '/' by {
            if j > 0 {
                assert(s.drop_first()[j - 1] != '/');
            }
        }
        if k < s.len() {
            assert(s.drop_first()[k - 1] == '/');
        }
    }
}

/// Index of the first `/` at or after `from`, or the length when none.
fn find_slash(s: &str, from: usize, n: usize) -> (r: usize)
    requires
        n == s@.len(),
        from <= n,
    ensures
        from <= r <= n,
        r - from == first_slash(s@.subrange(from as int, n as int)),
        forall|j: int| from <= j < r ==> s@[j] != '/',
        r < n ==> s@[r as int] == '/',
{
    let ghost suffix = s@.subrange(from as int, n as int);
    proof {
        lemma_first_slash(suffix);
    }
    let mut i = from;
    while i < n
        invariant
            n == s@.len(),
            from <= i <= n,
            suffix == s@.subrange(from as int, n as int),
            forall|j: int| from <= j < i ==> s@[j] != '/',
        decreases n - i,
    {
        if s.get_char(i) == '/' {
            proof {
                lemma_first_slash(suffix);
                assert(suffix[i - from] == s@[i as int]);
                assert forall|j: int| 0 <= j < i - from implies suffix[j] != '/' by {
                    assert(suffix[j] == s@[j + from]);
                }
                assert(first_slash(suffix) == i - from) by {
                    let k = first_slash(suffix);
                    if k < i - from {
                        assert(suffix[k] == '/');
                    }
                    if k > i - from {
                        assert(suffix[i - from] != '/');
                    }
                }
            }
            return i;
        }
        i = i + 1;
    }
    proof {
        assert forall|j: int| 0 <= j < suffix.len() implies suffix[j] != '/' by {
            assert(suffix[j] == s@[j + from]);
        }
        assert(first_slash(suffix) == suffix.len()) by {
            if first_slash(suffix) < suffix.len() {
                assert(suffix[first_slash(suffix)] == '/');
            }
        }
    }
    n
}

/// The non-empty pieces of `s[from..]` between `/` separators.
fn split_parts(s: &str, from: usize, n: usize) -> (r: Vec<String>)
    requires
        n == s@.len(),
        from <= n,
    ensures
        r@.len() == split_slash(s@.subrange(from as int, n as int)).len(),
        forall|k: int|
            0 <= k < r@.len() ==> (#[trigger] r@[k])@ == split_slash(
                s@.subrange(from as int, n as int),
            )[k],
    decreases n - from,
{
    let ghost suffix = s@.subrange(from as int, n as int);
    if from == n {
        proof {
            assert(suffix =~= Seq::<char>::empty());
        }
        return Vec::new();
    }
    let cut = find_slash(s, from, n);
    let piece = s.substring_char(from, cut);
    let ghost k = first_slash(suffix);
    proof {
        assert(k == cut - from);
        assert(piece@ =~= suffix.subrange(0, k));
    }
    let mut rest: Vec<String>;
    if cut < n {
        rest = split_parts(s, cut + 1, n);
        proof {
            assert(s@.subrange(cut + 1, n as int) =~= suffix.subrange(k + 1, suffix.len() as int));
        }
    } else {
        rest = Vec::new();
        proof {
            assert(k >= suffix.len());
        }
    }
    if piece.is_empty() {
        proof {
            assert(suffix.subrange(0, k).len() == 0);
        }
        rest
    } else {
        let mut out: Vec<String> = Vec::new();
        out.push(piece.to_owned());
        let m = rest.len();
        let mut t: usize = 0;
        while t < m
            invariant
                m == rest@.len(),
                t <= m,
                out@.len() == t + 1,
                out@[0]@ == piece@,
                forall|k2: int|
                    1 <= k2 < out@.len() ==> (#[trigger] out@[k2])@ == rest@[k2 - 1]@,
            decreases m - t,
        {
            let piece2 = clone_string(&rest[t]);
            out.push(piece2);
            t = t + 1;
        }
        proof {
            let target = split_slash(suffix);
            assert(target == seq![suffix.subrange(0, k)] + (if k >= suffix.len() {
                Seq::<Seq<char>>::empty()
            } else {
                split_slash(suffix.subrange(k + 1, suffix.len() as int))
            }));
            assert forall|k2: int|
                0 <= k2 < out@.len() implies (#[trigger] out@[k2])@ == target[k2] by {
                if k2 == 0 {
                } else {
                    assert(out@[k2]@ == rest@[k2 - 1]@);
                }
            }
        }
        out
    }
}

/// A copy of a string, character for character.
fn clone_string(s: &String) -> (r: String)
    ensures
        r@ == s@,
{
    s.as_str().to_owned()
}

/// The segments of `path`: its non-empty pieces between `/` separators
/// with `.` pieces normalized away, preceded by a root segment when the
/// path is absolute, or by a `.` segment when one opens a relative path.
pub fn segments(path: &str) -> (r: Vec<String>)
    ensures
        r@.len() == spec_segments(path@).len(),
        forall|k: int|
            0 <= k < r@.len() ==> (#[trigger] r@[k])@ == spec_segments(path@)[k],
{
    let n = path.unicode_len();
    let absolute = if n > 0 {
        path.get_char(0) == '/'
    } else {
        false
    };
    let parts = split_parts(path, 0, n);
    proof {
        assert(path@.subrange(0, n as int) =~= path@);
    }
    let ghost sp = split_slash(path@);
    let dot = String::from_str(".");
    proof {
        reveal_strlit(".");
        reveal_strlit("/");
        assert(dot@ =~= seq!['.']);
    }
    let mut out: Vec<String> = Vec::new();
    if absolute {
        out.push(String::from_str("/"));
        proof {
            assert(out@[0]@ =~= seq!['/']);
        }
    } else if !parts.is_empty() && parts[0].eq(&dot) {
        out.push(String::from_str("."));
        proof {
            assert(out@[0]@ =~= seq!['.']);
        }
    }
    let ghost head = out@.len() as int;
    let ghost headv = out@;
    let m = parts.len();
    let mut t: usize = 0;
    while t < m
        invariant
            m == parts@.len(),
            t <= m,
            m == sp.len(),
            dot@ == seq!['.'],
            forall|k: int| 0 <= k < m ==> (#[trigger] parts@[k])@ == sp[k],
            0 <= head <= out@.len(),
            out@.subrange(0, head) == headv,
            out@.len() == head + drop_curdir(sp.subrange(0, t as int)).len(),
            forall|k: int|
                head <= k < out@.len() ==> (#[trigger] out@[k])@ == drop_curdir(
                    sp.subrange(0, t as int),
                )[k - head],
        decreases m - t,
    {
        let ghost pre = sp.subrange(0, t as int);
        let ghost cur = sp.subrange(0, t + 1 as int);
        proof {
            assert(cur =~= pre.push(sp[t as int]));
            lemma_drop_curdir_push(pre, sp[t as int]);
        }
        if parts[t].eq(&dot) {
            proof {
                assert(parts@[t as int]@ == seq!['.']);
                assert(sp[t as int] == seq!['.']) by {
                    assert(sp[t as int] =~= seq!['.']);
                }
                assert(drop_curdir(cur) =~= drop_curdir(pre));
            }
        } else {
            proof {
                assert(sp[t as int] != seq!['.']) by {
                    if sp[t as int] == seq!['.'] {
                        assert(parts@[t as int]@ == dot@);
                    }
                }
                assert(drop_curdir(cur) =~= drop_curdir(pre).push(sp[t as int]));
            }
            let piece = clone_string(&parts[t]);
            out.push(piece);
            proof {
                assert(out@.subrange(0, head) =~= headv);
            }
        }
        t = t + 1;
    }
    proof {
        assert(sp.subrange(0, m as int) =~= sp);
        let target = spec_segments(path@);
        if absolute {
            assert(target == seq![seq!['/']] + drop_curdir(sp));
        } else if sp.len() > 0 && sp[0] == seq!['.'] {
            assert(parts@[0]@ == sp[0]);
            assert(target == seq![seq!['.']] + drop_curdir(sp));
            assert(head == 1);
        } else {
            if parts@.len() > 0 {
                assert(parts@[0]@ == sp[0]);
                if parts@[0]@ == dot@ {
                    assert(sp[0] =~= seq!['.']);
                }
            }
            assert(target == drop_curdir(sp));
            assert(head == 0);
        }
        assert(out@.len() == target.len());
        assert forall|k: int|
            0 <= k < out@.len() implies (#[trigger] out@[k])@ == target[k] by {
            if k < head {
                assert(out@[k] == headv[k]) by {
                    assert(out@.subrange(0, head)[k] == out@[k]);
                }
            }
        }
    }
    out
}

} // verus!