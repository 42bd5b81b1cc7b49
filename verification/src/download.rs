//! Submissions and their files: naming, matching against the expected file
//! name, ordering, and what a download run shows and writes.

use vstd::prelude::*;
use crate::workspace::{UserId, Users, Assignment, Course};
use crate::paths::{join_path, join_spec, file_name, file_name_spec};
use crate::text::{
    chars_of, push_char, is_ascii_alnum, is_ascii_digit, to_ascii_lower, to_lowercase, lowercase,
    ascii_alnum, ascii_digit, lowered, last_index_in, last_index_of, lemma_last_index_of_bounds,
    lemma_last_index_of_concat, same_text, text_lt, text_less, lemma_text_lt_asymmetric,
    lemma_text_lt_total, lemma_text_lt_transitive, debug_str, debug_quoted, append_chars, joined,
    u64_decimal, nat_decimal,
};
use crate::paint::{green, yellow, green_spec, yellow_spec};
use crate::table::{Table, shaped, fitted_widths, cells};

verus! {

/// A file attached to a submission.
pub struct Attachment {
    pub display_name: String,
    pub url: String,
}

/// A user of a course section.
pub struct User {
    pub id: UserId,
    pub name: String,
    pub sortable_name: String,
}

/// A student's submission. The score is held as the text it is shown as.
pub struct Submission {
    pub user_id: UserId,
    pub score: Option<String>,
    pub attachments: Vec<Attachment>,
}


/// `snakeify`: ASCII letters and digits kept (letters in lower case), each
/// space turned into `-`, everything else dropped.
pub open spec fn snake_spec(s: Seq<char>) -> Seq<char>
    decreases s.len(),
{
    if s.len() == 0 {
        seq![]
    } else {
        let rest = snake_spec(s.drop_last());
        let c = s.last();
        if ascii_alnum(c) {
            rest.push(lowered(c))
        } else if c == ' ' {
            rest.push('-')
        } else {
            rest
        }
    }
}

/// A name as it appears in a file name, such as `doe-john` for `Doe John`.
pub fn snakeify(name: &str) -> (r: String)
    ensures
        r@ == snake_spec(name@),
{
    let v = chars_of(name);
    let mut r = String::new();
    for i in 0..v.len()
        invariant
            r@ == snake_spec(v@.subrange(0, i as int)),
    {
        assert(v@.subrange(0, i + 1).drop_last() =~= v@.subrange(0, i as int));
        let c = v[i];
        if is_ascii_alnum(c) {
            push_char(&mut r, to_ascii_lower(c));
        } else if c == ' ' {
            push_char(&mut r, '-');
        }
    }
    assert(v@.subrange(0, v@.len() as int) =~= v@);
    r
}

/// The stem of a file name: everything before its last `.`.
pub open spec fn stem_of(s: Seq<char>) -> Seq<char> {
    let i = last_index_of(s, '.');
    if i < 0 {
        s
    } else {
        s.subrange(0, i)
    }
}

/// The extension of a file name: its last `.` and what follows, if any.
pub open spec fn ext_of(s: Seq<char>) -> Option<Seq<char>> {
    let i = last_index_of(s, '.');
    if i < 0 {
        None
    } else {
        Some(s.subrange(i, s.len() as int))
    }
}

/// A copy number such as `-2`: `-` then one or more ASCII digits.
pub open spec fn copy_suffix(r: Seq<char>) -> bool {
    &&& r.len() > 1
    &&& r[0] == '-'
    &&& forall|i: int| 1 <= i < r.len() ==> #[trigger] ascii_digit(r[i])
}

/// Whether a (lower-cased) uploaded name `d` is the (lower-cased) expected
/// name `e`, possibly with a copy number: same extension, and the same stem
/// or the expected stem followed by a copy number.
pub open spec fn names_match_spec(d: Seq<char>, e: Seq<char>) -> bool {
    let ds = stem_of(d);
    let es = stem_of(e);
    &&& ext_of(d) == ext_of(e)
    &&& (ds == es || (es.len() <= ds.len() && ds.subrange(0, es.len() as int) == es && copy_suffix(
        ds.subrange(es.len() as int, ds.len() as int),
    )))
}

/// Whether `v[a..b]` and `w[c..d]` hold the same characters.
fn same_range(v: &Vec<char>, a: usize, b: usize, w: &Vec<char>, c: usize, d: usize) -> (r: bool)
    requires
        a <= b <= v.len(),
        c <= d <= w.len(),
    ensures
        r == (v@.subrange(a as int, b as int) == w@.subrange(c as int, d as int)),
{
    if b - a != d - c {
        proof {
            if v@.subrange(a as int, b as int) == w@.subrange(c as int, d as int) {
                assert(v@.subrange(a as int, b as int).len() == w@.subrange(c as int, d as int).len());
            }
        }
        return false;
    }
    let n = b - a;
    let ghost vs = v@.subrange(a as int, b as int);
    let ghost ws = w@.subrange(c as int, d as int);
    for i in 0..n
        invariant
            n == b - a == d - c,
            a <= b <= v.len(),
            c <= d <= w.len(),
            vs == v@.subrange(a as int, b as int),
            ws == w@.subrange(c as int, d as int),
            forall|j: int| 0 <= j < i ==> #[trigger] vs[j] == ws[j],
    {
        assert(vs[i as int] == v@[a + i] && ws[i as int] == w@[c + i]);
        if v[a + i] != w[c + i] {
            return false;
        }
    }
    assert(vs =~= ws);
    true
}

/// Where the extension of `v` starts (its last `.`), or the end of `v`.
fn stem_end(v: &Vec<char>) -> (r: usize)
    ensures
        r <= v.len(),
        stem_of(v@) == v@.subrange(0, r as int),
        ext_of(v@) == (if r == v.len() {
            None
        } else {
            Some(v@.subrange(r as int, v.len() as int))
        }),
{
    proof {
        lemma_last_index_of_bounds(v@, '.');
        assert(v@.subrange(0, v.len() as int) =~= v@);
    }
    match last_index_in(v, v.len(), '.') {
        Some(i) => i,
        None => v.len(),
    }
}

/// `names_match_spec` on names already in lower case.
pub fn names_match(display: &str, expected: &str) -> (r: bool)
    ensures
        r == names_match_spec(display@, expected@),
{
    let d = chars_of(display);
    let e = chars_of(expected);
    let dn = d.len();
    let en = e.len();
    let di = stem_end(&d);
    let ei = stem_end(&e);
    let same_ext = if di == dn || ei == en {
        di == dn && ei == en
    } else {
        same_range(&d, di, dn, &e, ei, en)
    };
    assert(same_ext == (ext_of(display@) == ext_of(expected@)));
    if !same_ext {
        return false;
    }
    if same_range(&d, 0, di, &e, 0, ei) {
        return true;
    }
    if ei > di {
        return false;
    }
    assert(d@.subrange(0, di as int).subrange(0, ei as int) =~= d@.subrange(0, ei as int));
    assert(d@.subrange(0, di as int).subrange(ei as int, di as int) =~= d@.subrange(ei as int, di as int));
    if !same_range(&d, 0, ei, &e, 0, ei) {
        return false;
    }
    assert(e@.subrange(0, ei as int).len() == ei);
    let k = ei;
    if di - k <= 1 || d[k] != '-' {
        return false;
    }
    let ghost rest = d@.subrange(k as int, di as int);
    let mut ok = true;
    for j in k + 1..di
        invariant
            k + 1 <= di <= d.len(),
            rest == d@.subrange(k as int, di as int),
            ok == forall|t: int| k + 1 <= t < j ==> #[trigger] ascii_digit(d@[t]),
    {
        ok = ok && is_ascii_digit(d[j]);
    }
    proof {
        if ok {
            assert forall|t: int| 1 <= t < rest.len() implies #[trigger] ascii_digit(rest[t]) by {
                assert(rest[t] == d@[k + t]);
            }
        } else {
            let t = choose|t: int| k + 1 <= t < di && !#[trigger] ascii_digit(d@[t]);
            assert(rest[t - k] == d@[t]);
        }
    }
    ok
}

/// For ASCII names matching ignores case: raising the case of either name
/// changes nothing.
pub proof fn lemma_match_ignores_ascii_case(display: Seq<char>, expected: Seq<char>)
    requires
        vstd::utf8::is_ascii_chars(display),
        vstd::utf8::is_ascii_chars(expected),
    ensures
        vstd::utf8::is_ascii_chars(crate::text::ascii_raised(display)),
        vstd::utf8::is_ascii_chars(crate::text::ascii_raised(expected)),
        names_match_spec(
            crate::text::ascii_lowered(crate::text::ascii_raised(display)),
            crate::text::ascii_lowered(expected),
        ) == names_match_spec(crate::text::ascii_lowered(display), crate::text::ascii_lowered(expected)),
        names_match_spec(
            crate::text::ascii_lowered(display),
            crate::text::ascii_lowered(crate::text::ascii_raised(expected)),
        ) == names_match_spec(crate::text::ascii_lowered(display), crate::text::ascii_lowered(expected)),
{
    crate::text::lemma_raise_then_lower(display);
    crate::text::lemma_raise_then_lower(expected);
}

/// Every name matches itself.
pub proof fn lemma_name_matches_itself(name: Seq<char>)
    ensures
        names_match_spec(name, name),
{
}

/// The text of a name's extension, empty when it has none.
pub open spec fn ext_text(s: Seq<char>) -> Seq<char> {
    match ext_of(s) {
        Some(x) => x,
        None => seq![],
    }
}

/// A copy of the expected file: its stem, `-`, a copy number made of one or
/// more digits, then its extension (`foo-2.c` for `foo.c`, `foo-1` for
/// `foo`) matches the expected name.
#[verifier::spinoff_prover]
#[verifier::rlimit(60)]
pub proof fn lemma_numbered_copy_matches(expected: Seq<char>, n: Seq<char>)
    requires
        n.len() > 0,
        forall|i: int| 0 <= i < n.len() ==> #[trigger] ascii_digit(n[i]),
    ensures
        names_match_spec(stem_of(expected) + seq!['-'] + n + ext_text(expected), expected),
{
    let st = stem_of(expected);
    let suffix = seq!['-'] + n;
    let x = ext_text(expected);
    let d = st + suffix + x;
    assert(d =~= stem_of(expected) + seq!['-'] + n + ext_text(expected));
    lemma_last_index_of_bounds(expected, '.');
    lemma_last_index_of_bounds(suffix, '.');
    assert forall|j: int| 0 <= j < suffix.len() implies suffix[j] != '.' by {
        if j > 0 {
            assert(suffix[j] == n[j - 1]);
            assert(ascii_digit(n[j - 1]));
        }
    }
    assert(last_index_of(suffix, '.') == -1);
    lemma_last_index_of_concat(st, suffix, '.');
    lemma_last_index_of_concat(st + suffix, x, '.');
    let i = last_index_of(expected, '.');
    if i < 0 {
        assert(x =~= seq![]);
        assert(last_index_of(x, '.') == -1);
        assert(st + suffix + x =~= st + suffix);
        assert(last_index_of(d, '.') == -1);
        assert(stem_of(d) == d);
        assert(ext_of(d) == ext_of(expected));
    } else {
        assert(expected.subrange(0, i) + expected.subrange(i, expected.len() as int) =~= expected);
        lemma_last_index_of_concat(expected.subrange(0, i), expected.subrange(i, expected.len() as int), '.');
        lemma_last_index_of_bounds(x, '.');
        lemma_last_index_of_bounds(expected.subrange(0, i), '.');
        assert(x == expected.subrange(i, expected.len() as int));
        assert(st == expected.subrange(0, i));
        assert(last_index_of(x, '.') == 0) by {
            if last_index_of(x, '.') < 0 {
                assert(x[0] == '.');
            }
        }
        assert(last_index_of(d, '.') == (st + suffix).len());
        assert(ext_of(d) == ext_of(expected));
        assert(d.subrange(0, (st + suffix).len() as int) =~= st + suffix);
        assert(d.subrange((st + suffix).len() as int, d.len() as int) =~= x);
    }
    let ds = stem_of(d);
    assert(ds =~= st + suffix);
    assert(ds.subrange(0, st.len() as int) =~= st);
    assert(ds.subrange(st.len() as int, ds.len() as int) =~= suffix);
    assert forall|j: int| 1 <= j < suffix.len() implies #[trigger] ascii_digit(suffix[j]) by {
        assert(suffix[j] == n[j - 1]);
    }
    assert(copy_suffix(suffix));
    assert(stem_of(expected) == st);
}

/// Whether an uploaded file named `display_name` is the expected file
/// `expected`, ignoring case: `foo.c` matches `foo.c`, `foo-1.c`, `foo-2.c`,
/// and `foo` matches `foo`, `foo-1`.
pub fn filename_matches(display_name: &str, expected: &str) -> (r: bool)
    ensures
        r == names_match_spec(lowercase(display_name@), lowercase(expected@)),
        vstd::utf8::is_ascii_chars(display_name@) && vstd::utf8::is_ascii_chars(expected@) ==> r
            == names_match_spec(
            crate::text::ascii_lowered(display_name@),
            crate::text::ascii_lowered(expected@),
        ),
{
    let display = to_lowercase(display_name);
    let exp = to_lowercase(expected);
    names_match(display.as_str(), exp.as_str())
}


/// The order in which submissions are listed: the test student last, the
/// others by sortable name.
pub open spec fn sort_key(users: Map<u32, User>, s: Submission) -> (bool, Seq<char>) {
    let u = users[s.user_id.0];
    (u.name@ == "Test Student"@, u.sortable_name@)
}

/// Tuple order on sort keys: `false` before `true`, then by name.
pub open spec fn key_lt(a: (bool, Seq<char>), b: (bool, Seq<char>)) -> bool {
    (!a.0 && b.0) || (a.0 == b.0 && text_lt(a.1, b.1))
}

proof fn lemma_key_order(a: (bool, Seq<char>), b: (bool, Seq<char>), c: (bool, Seq<char>))
    ensures
        !(key_lt(a, b) && key_lt(b, a)),
        a == b || key_lt(a, b) || key_lt(b, a),
        key_lt(a, b) && key_lt(b, c) ==> key_lt(a, c),
{
    lemma_text_lt_asymmetric(a.1, b.1);
    lemma_text_lt_total(a.1, b.1);
    if key_lt(a, b) && key_lt(b, c) && a.0 == b.0 && b.0 == c.0 {
        lemma_text_lt_transitive(a.1, b.1, c.1);
    }
}

/// `out` is `ins` reordered by `p` (`out[k]` is `ins[p[k]]`), ordered by
/// sort key, with submissions of equal key in the order they came in: the
/// result of a stable sort.
pub open spec fn stably_sorted(
    ins: Seq<Submission>,
    out: Seq<Submission>,
    p: Seq<int>,
    users: Map<u32, User>,
) -> bool {
    &&& p.len() == ins.len()
    &&& out.len() == ins.len()
    &&& forall|k: int| 0 <= k < p.len() ==> 0 <= #[trigger] p[k] < ins.len() && out[k] == ins[p[k]]
    &&& forall|k: int, l: int| 0 <= k < l < p.len() ==> #[trigger] p[k] != #[trigger] p[l]
    &&& forall|k: int, l: int|
        0 <= k < l < out.len() ==> key_lt(
            sort_key(users, #[trigger] out[k]),
            sort_key(users, #[trigger] out[l]),
        ) || (sort_key(users, out[k]) == sort_key(users, out[l]) && p[k] < p[l])
}

pub open spec fn key_view(k: (bool, Vec<char>)) -> (bool, Seq<char>) {
    (k.0, k.1@)
}

fn submission_key(users: &Users, s: &Submission) -> (r: (bool, Vec<char>))
    requires
        users@.contains_key(s.user_id.0),
    ensures
        key_view(r) == sort_key(users@, *s),
{
    let u = users.get(s.user_id).unwrap();
    (same_text(u.name.as_str(), "Test Student"), chars_of(u.sortable_name.as_str()))
}

/// The submissions sorted by key, stably: submissions of the test student
/// after all others, the others by sortable name.
pub fn sort_submissions(submissions: Vec<Submission>, users: &Users) -> (r: Vec<Submission>)
    requires
        forall|i: int| 0 <= i < submissions@.len() ==> users@.contains_key(
            (#[trigger] submissions@[i]).user_id.0,
        ),
    ensures
        exists|p: Seq<int>| stably_sorted(submissions@, r@, p, users@),
        r@.len() == submissions@.len(),
        forall|k: int| 0 <= k < r@.len() ==> submissions@.contains(#[trigger] r@[k]),
        forall|k: int, l: int|
            0 <= k < l < r@.len() && users@[(#[trigger] r@[k]).user_id.0].name@ == "Test Student"@
                ==> users@[(#[trigger] r@[l]).user_id.0].name@ == "Test Student"@,
        forall|k: int, l: int|
            0 <= k < l < r@.len() && users@[(#[trigger] r@[k]).user_id.0].name@ != "Test Student"@
                && users@[(#[trigger] r@[l]).user_id.0].name@ != "Test Student"@ ==> !text_lt(
                users@[r@[l].user_id.0].sortable_name@,
                users@[r@[k].user_id.0].sortable_name@,
            ),
{
    let ghost all = submissions@;
    let ghost um = users@;
    let mut rest = submissions;
    let mut out: Vec<Submission> = Vec::new();
    let mut keys: Vec<(bool, Vec<char>)> = Vec::new();
    let ghost mut p: Seq<int> = seq![];
    let mut taken: usize = 0;
    while rest.len() > 0
        invariant
            um == users@,
            forall|i: int| 0 <= i < all.len() ==> um.contains_key((#[trigger] all[i]).user_id.0),
            taken + rest@.len() == all.len(),
            rest@ == all.subrange(taken as int, all.len() as int),
            out@.len() == taken,
            keys@.len() == taken,
            stably_sorted(all.subrange(0, taken as int), out@, p, um),
            forall|k: int| 0 <= k < taken ==> key_view(#[trigger] keys@[k]) == sort_key(um, out@[k]),
        decreases rest.len(),
    {
        let x = rest.remove(0);
        assert(x == all[taken as int]);
        let kx = submission_key(users, &x);
        let mut j = out.len();
        loop
            invariant
                j <= out@.len() == keys@.len(),
                forall|k: int| j <= k < keys@.len() ==> key_lt(key_view(kx), key_view(#[trigger] keys@[k])),
            ensures
                j <= out@.len() == keys@.len(),
                forall|k: int| j <= k < keys@.len() ==> key_lt(key_view(kx), key_view(#[trigger] keys@[k])),
                j == 0 || !key_lt(key_view(kx), key_view(keys@[j - 1])),
            decreases j,
        {
            if j == 0 {
                break;
            }
            if !key_lt_exec(&kx, &keys[j - 1]) {
                break;
            }
            j -= 1;
        }
        let ghost old_out = out@;
        let ghost old_keys = keys@;
        let ghost old_p = p;
        let ghost ins = all.subrange(0, taken + 1);
        proof {
            let kv = key_view(kx);
            assert forall|k: int| 0 <= k < j implies !key_lt(kv, sort_key(um, #[trigger] old_out[k])) by {
                let last = sort_key(um, old_out[j - 1]);
                assert(key_view(keys@[j - 1]) == last);
                lemma_key_order(kv, sort_key(um, old_out[k]), last);
                if k < j - 1 {
                    assert(key_lt(sort_key(um, old_out[k]), last) || sort_key(um, old_out[k]) == last);
                }
            }
        }
        out.insert(j, x);
        keys.insert(j, kx);
        proof {
            p = old_p.insert(j as int, taken as int);
            let kv = key_view(kx);
            assert forall|k: int| 0 <= k < p.len() implies 0 <= #[trigger] p[k] < ins.len() && out@[k]
                == ins[p[k]] by {
                if k < j {
                    assert(p[k] == old_p[k]);
                    assert(old_out[k] == all.subrange(0, taken as int)[old_p[k]]);
                } else if k > j {
                    assert(p[k] == old_p[k - 1]);
                    assert(old_out[k - 1] == all.subrange(0, taken as int)[old_p[k - 1]]);
                }
            }
            assert forall|k: int, l: int| 0 <= k < l < p.len() implies #[trigger] p[k] != #[trigger] p[l] by {
                if k != j && l != j {
                    let k0 = if k < j { k } else { k - 1 };
                    let l0 = if l < j { l } else { l - 1 };
                    assert(old_p[k0] != old_p[l0]);
                } else if k == j {
                    assert(0 <= old_p[l - 1] < taken);
                } else {
                    assert(0 <= old_p[k] < taken);
                }
            }
            assert forall|k: int, l: int| 0 <= k < l < out@.len() implies key_lt(
                sort_key(um, #[trigger] out@[k]),
                sort_key(um, #[trigger] out@[l]),
            ) || (sort_key(um, out@[k]) == sort_key(um, out@[l]) && p[k] < p[l]) by {
                if k != j && l != j {
                    let k0 = if k < j { k } else { k - 1 };
                    let l0 = if l < j { l } else { l - 1 };
                    assert(out@[k] == old_out[k0] && out@[l] == old_out[l0]);
                    assert(p[k] == old_p[k0] && p[l] == old_p[l0]);
                } else if k == j {
                    assert(out@[l] == old_out[l - 1]);
                    assert(key_view(keys@[l]) == sort_key(um, old_out[l - 1]));
                } else {
                    assert(out@[k] == old_out[k]);
                    assert(!key_lt(kv, sort_key(um, old_out[k])));
                    lemma_key_order(kv, sort_key(um, old_out[k]), kv);
                    assert(0 <= old_p[k] < taken);
                }
            }
            assert forall|k: int| 0 <= k < taken + 1 implies key_view(#[trigger] keys@[k]) == sort_key(
                um,
                out@[k],
            ) by {
                if k < j {
                    assert(keys@[k] == old_keys[k] && out@[k] == old_out[k]);
                } else if k > j {
                    assert(keys@[k] == old_keys[k - 1] && out@[k] == old_out[k - 1]);
                }
            }
        }
        taken = out.len();
    }
    assert(all.subrange(0, taken as int) =~= all);
    proof {
        let p = choose|p: Seq<int>| stably_sorted(all, out@, p, um);
        lemma_sorted_by_sortable_name(all, out@, p, um);
    }
    out
}

/// In a stable sort by key, every submission of the test student comes
/// after every other submission, and the other submissions come in order
/// of sortable name.
pub proof fn lemma_sorted_test_student_last(
    ins: Seq<Submission>,
    out: Seq<Submission>,
    p: Seq<int>,
    users: Map<u32, User>,
    k: int,
    l: int,
)
    requires
        stably_sorted(ins, out, p, users),
        0 <= k < l < out.len(),
    ensures
        sort_key(users, out[k]).0 ==> sort_key(users, out[l]).0,
        sort_key(users, out[k]).0 == sort_key(users, out[l]).0 ==> !text_lt(
            sort_key(users, out[l]).1,
            sort_key(users, out[k]).1,
        ),
{
    let a = sort_key(users, out[k]);
    let b = sort_key(users, out[l]);
    assert(key_lt(a, b) || (a == b && p[k] < p[l]));
    lemma_text_lt_asymmetric(a.1, b.1);
}

/// In a stable sort by key, every submission listed is one that came in;
/// the test student's submissions come after all others, and the others
/// come in order of their user's sortable name (not
/// the display name): no sortable name is followed by one before it.
pub proof fn lemma_sorted_by_sortable_name(
    ins: Seq<Submission>,
    out: Seq<Submission>,
    p: Seq<int>,
    users: Map<u32, User>,
)
    requires
        stably_sorted(ins, out, p, users),
    ensures
        forall|k: int| 0 <= k < out.len() ==> ins.contains(#[trigger] out[k]),
        forall|k: int, l: int|
            0 <= k < l < out.len() && users[(#[trigger] out[k]).user_id.0].name@ == "Test Student"@
                ==> users[(#[trigger] out[l]).user_id.0].name@ == "Test Student"@,
        forall|k: int, l: int|
            0 <= k < l < out.len() && users[(#[trigger] out[k]).user_id.0].name@ != "Test Student"@
                && users[(#[trigger] out[l]).user_id.0].name@ != "Test Student"@ ==> !text_lt(
                users[out[l].user_id.0].sortable_name@,
                users[out[k].user_id.0].sortable_name@,
            ),
{
    assert forall|k: int, l: int| 0 <= k < l < out.len() implies {
        &&& users[(#[trigger] out[k]).user_id.0].name@ == "Test Student"@
            ==> users[(#[trigger] out[l]).user_id.0].name@ == "Test Student"@
        &&& users[out[k].user_id.0].name@ != "Test Student"@ && users[out[l].user_id.0].name@
            != "Test Student"@ ==> !text_lt(
            users[out[l].user_id.0].sortable_name@,
            users[out[k].user_id.0].sortable_name@,
        )
    } by {
        lemma_sorted_test_student_last(ins, out, p, users, k, l);
    }
    assert forall|k: int| 0 <= k < out.len() implies ins.contains(#[trigger] out[k]) by {
        assert(out[k] == ins[p[k]]);
    }
}

/// A snake-form name holds only lower-case ASCII letters, digits and `-`,
/// and is no longer than the name it comes from.
pub proof fn lemma_snake_chars(s: Seq<char>)
    ensures
        snake_spec(s).len() <= s.len(),
        forall|i: int| 0 <= i < snake_spec(s).len() ==> {
            let c = #[trigger] snake_spec(s)[i];
            crate::text::ascii_digit(c) || crate::text::ascii_lower_letter(c) || c == '-'
        },
    decreases s.len(),
{
    if s.len() > 0 {
        lemma_snake_chars(s.drop_last());
        let rest = snake_spec(s.drop_last());
        let c = s.last();
        if ascii_alnum(c) {
            assert(crate::text::ascii_digit(lowered(c)) || crate::text::ascii_lower_letter(lowered(c))) by {
                if crate::text::ascii_upper(c) {
                    assert((((c as u8) + 32) as u8) as char == lowered(c));
                    assert('a' <= lowered(c) <= 'z');
                }
            }
            assert forall|i: int| 0 <= i < snake_spec(s).len() implies {
                let d = #[trigger] snake_spec(s)[i];
                crate::text::ascii_digit(d) || crate::text::ascii_lower_letter(d) || d == '-'
            } by {
                if i < rest.len() {
                    assert(snake_spec(s)[i] == rest[i]);
                }
            }
        } else if c == ' ' {
            assert forall|i: int| 0 <= i < snake_spec(s).len() implies {
                let d = #[trigger] snake_spec(s)[i];
                crate::text::ascii_digit(d) || crate::text::ascii_lower_letter(d) || d == '-'
            } by {
                if i < rest.len() {
                    assert(snake_spec(s)[i] == rest[i]);
                }
            }
        }
    }
}

/// `key_lt` on keys held as values.
fn key_lt_exec(a: &(bool, Vec<char>), b: &(bool, Vec<char>)) -> (r: bool)
    ensures
        r == key_lt(key_view(*a), key_view(*b)),
{
    if a.0 != b.0 {
        !a.0 && b.0
    } else {
        text_less(&a.1, &b.1)
    }
}


pub open spec fn display_names(a: Seq<Attachment>) -> Seq<Seq<char>> {
    a.map_values(|x: Attachment| x.display_name@)
}

/// `format!("{:?}", names)` for a list of names: `[`, each name quoted,
/// separated by `, `, then `]`.
pub open spec fn debug_list(names: Seq<Seq<char>>) -> Seq<char> {
    "["@ + joined(names.map_values(|n: Seq<char>| debug_quoted(n)), ", "@) + "]"@
}

/// `items` inside square brackets, separated by `, `.
pub fn bracket_list(items: &Vec<String>) -> (r: String)
    ensures
        r@ == "["@ + joined(items@.map_values(|t: String| t@), ", "@) + "]"@,
{
    let ghost parts = items@.map_values(|t: String| t@);
    let mut body = String::new();
    for i in 0..items.len()
        invariant
            parts == items@.map_values(|t: String| t@),
            body@ == joined(parts.subrange(0, i as int), ", "@),
    {
        assert(parts.subrange(0, i + 1).drop_last() =~= parts.subrange(0, i as int));
        assert(parts.subrange(0, i + 1).last() == items@[i as int]@);
        if i > 0 {
            body.append(", ");
        }
        body.append(items[i].as_str());
        proof {
            if i == 0 {
                assert(body@ =~= parts.subrange(0, 1)[0]);
            }
        }
    }
    assert(parts.subrange(0, items@.len() as int) =~= parts);
    let mut r = String::from_str("[");
    r.append(body.as_str());
    r.append("]");
    r
}

/// The names of the attachments, as a debug list.
fn attachment_list(attachments: &Vec<Attachment>) -> (r: String)
    ensures
        r@ == debug_list(display_names(attachments@)),
{
    let ghost names = display_names(attachments@);
    let mut quoted: Vec<String> = Vec::new();
    for i in 0..attachments.len()
        invariant
            names == display_names(attachments@),
            quoted@.len() == i,
            forall|j: int| 0 <= j < i ==> #[trigger] quoted@[j]@ == debug_quoted(names[j]),
    {
        quoted.push(debug_str(attachments[i].display_name.as_str()));
    }
    let r = bracket_list(&quoted);
    assert(quoted@.map_values(|t: String| t@) =~= names.map_values(|n: Seq<char>| debug_quoted(n)));
    r
}

/// The first position, from `i` on, of a name matching the expected file
/// name `f` (both lower-cased), or -1.
pub open spec fn first_match_from(names: Seq<Seq<char>>, f: Seq<char>, i: int) -> int
    decreases names.len() - i,
{
    if i < 0 || i >= names.len() {
        -1
    } else if names_match_spec(lowercase(names[i]), lowercase(f)) {
        i
    } else {
        first_match_from(names, f, i + 1)
    }
}

proof fn lemma_first_match_bounds(names: Seq<Seq<char>>, f: Seq<char>, i: int)
    requires
        0 <= i,
    ensures
        first_match_from(names, f, i) == -1 || i <= first_match_from(names, f, i) < names.len(),
    decreases names.len() - i,
{
    if i < names.len() && !names_match_spec(lowercase(names[i]), lowercase(f)) {
        lemma_first_match_bounds(names, f, i + 1);
    }
}

/// Which attachment of a submission is the assignment's file: a single
/// upload is taken whatever its name; among several, the first one matching
/// the expected file name, which is then required.
pub open spec fn choose_attachment(filename: Option<Seq<char>>, names: Seq<Seq<char>>) -> Result<int, Seq<char>> {
    match filename {
        Some(f) => if names.len() == 1 {
            Ok(0)
        } else if first_match_from(names, f, 0) >= 0 {
            Ok(first_match_from(names, f, 0))
        } else {
            Err("error: couldn't find \""@ + f + "\" in attachments"@)
        },
        None => if names.len() != 1 {
            Err("error: multiple files submitted"@)
        } else {
            Ok(0)
        },
    }
}

proof fn lemma_choose_attachment_bounds(filename: Option<Seq<char>>, names: Seq<Seq<char>>)
    ensures
        choose_attachment(filename, names) matches Ok(i) ==> 0 <= i < names.len(),
        find_attachment_spec(filename, names) matches Ok(i) ==> 0 <= i < names.len(),
{
    if let Some(f) = filename {
        if names.len() != 1 {
            lemma_first_match_bounds(names, f, 0);
        }
    }
}

proof fn lemma_first_match_is_first(names: Seq<Seq<char>>, f: Seq<char>, i: int, j: int)
    requires
        0 <= i <= j < names.len(),
        names_match_spec(lowercase(names[j]), lowercase(f)),
        forall|k: int| i <= k < j ==> !names_match_spec(lowercase(#[trigger] names[k]), lowercase(f)),
    ensures
        first_match_from(names, f, i) == j,
    decreases j - i,
{
    if i < j {
        lemma_first_match_is_first(names, f, i + 1, j);
    }
}

proof fn lemma_first_match_none(names: Seq<Seq<char>>, f: Seq<char>, i: int)
    requires
        0 <= i,
        forall|k: int| i <= k < names.len() ==> !names_match_spec(lowercase(#[trigger] names[k]), lowercase(f)),
    ensures
        first_match_from(names, f, i) == -1,
    decreases names.len() - i,
{
    if i < names.len() {
        lemma_first_match_none(names, f, i + 1);
    }
}

/// Which attachment is the assignment's file. A single upload is taken
/// whatever its name. Among several uploads with an expected file name, the
/// first one whose name matches it (ignoring case) is taken, wherever it
/// stands, and there is an error only when none matches. Among several
/// uploads with no expected name there is an error.
pub proof fn lemma_choose_attachment(filename: Option<Seq<char>>, names: Seq<Seq<char>>)
    ensures
        names.len() == 1 ==> choose_attachment(filename, names) == Ok::<int, Seq<char>>(0),
        names.len() != 1 && filename is None ==> choose_attachment(filename, names) is Err,
        names.len() != 1 ==> (filename matches Some(f) ==> forall|j: int|
            0 <= j < names.len() && names_match_spec(lowercase(#[trigger] names[j]), lowercase(f)) && (forall|k: int|
                0 <= k < j ==> !names_match_spec(lowercase(#[trigger] names[k]), lowercase(f)))
                ==> choose_attachment(filename, names) == Ok::<int, Seq<char>>(j)),
        names.len() != 1 ==> (filename matches Some(f) ==> ((forall|k: int|
            0 <= k < names.len() ==> !names_match_spec(lowercase(#[trigger] names[k]), lowercase(f)))
            <==> choose_attachment(filename, names) is Err)),
{
    if let Some(f) = filename {
        if names.len() != 1 {
            assert forall|j: int|
                0 <= j < names.len() && names_match_spec(lowercase(#[trigger] names[j]), lowercase(f)) && (forall|
                    k: int,
                | 0 <= k < j ==> !names_match_spec(lowercase(#[trigger] names[k]), lowercase(f)))
                implies choose_attachment(filename, names) == Ok::<int, Seq<char>>(j) by {
                lemma_first_match_is_first(names, f, 0, j);
            }
            if forall|k: int| 0 <= k < names.len() ==> !names_match_spec(lowercase(#[trigger] names[k]), lowercase(f)) {
                lemma_first_match_none(names, f, 0);
            } else {
                let j = choose|j: int| 0 <= j < names.len() && names_match_spec(lowercase(#[trigger] names[j]), lowercase(f));
                lemma_first_match_bounds(names, f, 0);
                lemma_first_match_bounds(names, f, j);
                lemma_first_match_reaches(names, f, 0, j);
            }
        }
    }
}

proof fn lemma_first_match_reaches(names: Seq<Seq<char>>, f: Seq<char>, i: int, j: int)
    requires
        0 <= i <= j < names.len(),
        names_match_spec(lowercase(names[j]), lowercase(f)),
    ensures
        i <= first_match_from(names, f, i) <= j,
    decreases j - i,
{
    if i < j && !names_match_spec(lowercase(names[i]), lowercase(f)) {
        lemma_first_match_reaches(names, f, i + 1, j);
    }
}

/// `choose_attachment`, with the list of attachment names after an error.
pub open spec fn find_attachment_spec(filename: Option<Seq<char>>, names: Seq<Seq<char>>) -> Result<int, Seq<char>> {
    match choose_attachment(filename, names) {
        Ok(i) => Ok(i),
        Err(e) => Err(e + ": "@ + debug_list(names)),
    }
}

pub open spec fn opt_view(o: Option<String>) -> Option<Seq<char>> {
    match o {
        Some(s) => Some(s@),
        None => None,
    }
}

/// The name a submitted file is saved under: `<name>-<file>` below the
/// assignment directory, where `<name>` is the student's sortable name in
/// snake form; this is the final component of that path.
pub open spec fn saved_name_spec(dir: Seq<char>, sortable: Seq<char>, display: Seq<char>) -> Option<Seq<char>> {
    file_name_spec(join_spec(dir, snake_spec(sortable) + seq!['-'] + display))
}

/// The path a submitted file is saved at.
pub open spec fn saved_path_spec(dir: Seq<char>, sortable: Seq<char>, display: Seq<char>) -> Seq<char> {
    join_spec(dir, snake_spec(sortable) + seq!['-'] + display)
}

impl<'a> Assignment<'a> {
    /// The position of the attachment that is the assignment's file, or the
    /// reason there is none.
    pub fn find_attachment(&self, s: &Submission) -> (r: Result<usize, String>)
        ensures
            match find_attachment_spec(opt_view(self.settings.filename), display_names(s.attachments@)) {
                Ok(i) => r == Ok::<usize, String>(i as usize),
                Err(e) => r matches Err(m) && m@ == e,
            },
            s.attachments@.len() == 1 ==> r == Ok::<usize, String>(0),
            s.attachments@.len() != 1 && self.settings.filename is None ==> r is Err,
            s.attachments@.len() != 1 ==> (self.settings.filename matches Some(f) ==> forall|j: int|
                0 <= j < s.attachments@.len() && names_match_spec(
                    lowercase((#[trigger] s.attachments@[j]).display_name@),
                    lowercase(f@),
                ) && (forall|k: int|
                    0 <= k < j ==> !names_match_spec(
                        lowercase((#[trigger] s.attachments@[k]).display_name@),
                        lowercase(f@),
                    )) ==> r == Ok::<usize, String>(j as usize)),
            s.attachments@.len() != 1 ==> (self.settings.filename matches Some(f) ==> ((forall|k: int|
                0 <= k < s.attachments@.len() ==> !names_match_spec(
                    lowercase((#[trigger] s.attachments@[k]).display_name@),
                    lowercase(f@),
                )) <==> r is Err)),
    {
        proof {
            let names = display_names(s.attachments@);
            lemma_choose_attachment(opt_view(self.settings.filename), names);
            assert forall|k: int| 0 <= k < s.attachments@.len() implies names[k] == (
            #[trigger] s.attachments@[k]).display_name@ by {}
        }
        let res = self.choose_attachment(s);
        match res {
            Ok(i) => Ok(i),
            Err(e) => {
                let mut m = e;
                m.append(": ");
                let list = attachment_list(&s.attachments);
                m.append(list.as_str());
                Err(m)
            },
        }
    }

    /// `choose_attachment` for submission `s`.
    fn choose_attachment(&self, s: &Submission) -> (r: Result<usize, String>)
        ensures
            match choose_attachment(opt_view(self.settings.filename), display_names(s.attachments@)) {
                Ok(i) => r == Ok::<usize, String>(i as usize),
                Err(e) => r matches Err(m) && m@ == e,
            },
    {
        let ghost names = display_names(s.attachments@);
        match &self.settings.filename {
            Some(filename) => {
                if s.attachments.len() == 1 {
                    return Ok(0);
                }
                for i in 0..s.attachments.len()
                    invariant
                        names == display_names(s.attachments@),
                        names.len() != 1,
                        self.settings.filename == Some(*filename),
                        first_match_from(names, filename@, 0) == first_match_from(names, filename@, i as int),
                {
                    assert(names[i as int] == s.attachments@[i as int].display_name@);
                    if filename_matches(s.attachments[i].display_name.as_str(), filename.as_str()) {
                        return Ok(i);
                    }
                }
                let mut e = String::from_str("error: couldn't find \"");
                e.append(filename.as_str());
                e.append("\" in attachments");
                Err(e)
            },
            None => {
                if s.attachments.len() != 1 {
                    Err(String::from_str("error: multiple files submitted"))
                } else {
                    Ok(0)
                }
            },
        }
    }

    /// The name `attachment` of `user` is saved under.
    pub fn submission_filename(&self, user: &User, attachment: &Attachment) -> (r: String)
        requires
            saved_name_spec(self.path@, user.sortable_name@, attachment.display_name@) is Some,
        ensures
            Some(r@) == saved_name_spec(self.path@, user.sortable_name@, attachment.display_name@),
    {
        let mut name = snakeify(user.sortable_name.as_str());
        name.append("-");
        name.append(attachment.display_name.as_str());
        proof {
            reveal_strlit("-");
            assert("-"@ =~= seq!['-']);
        }
        let path = join_path(self.path.as_str(), name.as_str());
        file_name(path.as_str()).unwrap()
    }

    /// The name the assignment's file of submission `s` is saved under, or
    /// the reason there is none.
    pub fn attachment_filename(&self, user: &User, s: &Submission) -> (r: Result<String, String>)
        requires
            find_attachment_spec(opt_view(self.settings.filename), display_names(s.attachments@)) matches Ok(i)
                ==> saved_name_spec(self.path@, user.sortable_name@, display_names(s.attachments@)[i]) is Some,
        ensures
            match find_attachment_spec(opt_view(self.settings.filename), display_names(s.attachments@)) {
                Ok(i) => r matches Ok(n) && Some(n@) == saved_name_spec(
                    self.path@,
                    user.sortable_name@,
                    display_names(s.attachments@)[i],
                ),
                Err(e) => r matches Err(m) && m@ == e,
            },
    {
        let n = s.attachments.len();
        match self.find_attachment(s) {
            Err(e) => Err(e),
            Ok(i) => {
                proof {
                    let names = display_names(s.attachments@);
                    let f = opt_view(self.settings.filename);
                    lemma_choose_attachment_bounds(f, names);
                    assert(find_attachment_spec(f, names) is Ok);
                    let k = find_attachment_spec(f, names)->Ok_0;
                    assert(names.len() == s.attachments@.len());
                    assert(0 <= k < s.attachments@.len());
                    assert(k == i as int);
                }
                assert(display_names(s.attachments@)[i as int] == s.attachments@[i as int].display_name@);
                Ok(self.submission_filename(user, &s.attachments[i]))
            },
        }
    }
}


/// The Canvas API address all requests go to.
pub open spec fn api_base() -> Seq<char> {
    "https://wwu.instructure.com/api/v1/"@
}

/// How many items the list requests ask for per page.
pub const PER_PAGE: usize = 100;

/// The address of page `page` (counted from 1) of the list at `url`, which
/// already carries a query.
pub fn page_url(url: &str, page: u32) -> (r: String)
    ensures
        r@ == url@ + "&page="@ + nat_decimal(page as nat),
{
    let mut r = url.to_owned();
    r.append("&page=");
    append_chars(&mut r, &u64_decimal(page as u64));
    r
}

/// The page to ask for after page `page` gave `received` items: the next
/// one while pages come back full, none once a page comes back short.
pub fn next_page(page: u32, received: usize) -> (r: Option<u32>)
    ensures
        r == (if received >= PER_PAGE && page < u32::MAX {
            Some((page + 1) as u32)
        } else {
            None::<u32>
        }),
{
    if received >= PER_PAGE && page < u32::MAX {
        Some(page + 1)
    } else {
        None
    }
}

/// The address listing the sections of course `course`.
pub fn sections_url(course: &str) -> (r: String)
    ensures
        r@ == api_base() + "courses/"@ + course@ + "/sections"@,
{
    let mut r = String::from_str("https://wwu.instructure.com/api/v1/");
    r.append("courses/");
    r.append(course);
    r.append("/sections");
    r
}

/// The `Authorization` header value for `token`.
pub fn bearer(token: &str) -> (r: String)
    ensures
        r@ == "Bearer "@ + token@,
{
    let mut r = String::from_str("Bearer ");
    r.append(token);
    r
}

impl<'a> Course<'a> {
    /// The address listing the users of the course's section.
    pub fn users_url(&self) -> (r: String)
        ensures
            r@ == api_base() + "sections/"@ + nat_decimal(self.settings.section as nat)
                + "/users?per_page=100"@,
    {
        let mut r = String::from_str("https://wwu.instructure.com/api/v1/");
        r.append("sections/");
        append_chars(&mut r, &u64_decimal(self.settings.section as u64));
        r.append("/users?per_page=100");
        r
    }
}

/// The text shown in the score column.
pub open spec fn score_text(s: Submission) -> Seq<char> {
    match s.score {
        Some(t) => t@,
        None => "<not graded>"@,
    }
}

/// The row shown for submission `s` of `user`: name, file, score, status.
pub open spec fn row_spec(
    dir: Seq<char>,
    filename: Option<Seq<char>>,
    user: User,
    s: Submission,
) -> Seq<Seq<char>> {
    if s.attachments.len() == 0 {
        seq![user.name@, "<not submitted>"@, score_text(s), ""@]
    } else {
        let file = match find_attachment_spec(filename, display_names(s.attachments@)) {
            Ok(i) => saved_name_spec(dir, user.sortable_name@, display_names(s.attachments@)[i])->Some_0,
            Err(e) => e,
        };
        seq![user.name@, file, score_text(s), "..."@]
    }
}

/// Every chosen attachment of `subs` has a file name to be saved under.
pub open spec fn saved_names_exist(
    dir: Seq<char>,
    filename: Option<Seq<char>>,
    users: Map<u32, User>,
    subs: Seq<Submission>,
) -> bool {
    forall|k: int|
        0 <= k < subs.len() ==> (find_attachment_spec(filename, display_names((#[trigger] subs[k]).attachments@))
            matches Ok(i) ==> saved_name_spec(
            dir,
            users[subs[k].user_id.0].sortable_name@,
            display_names(subs[k].attachments@)[i],
        ) is Some)
}

/// Every submission of `subs` is by a user of the roster.
pub open spec fn users_known(users: Map<u32, User>, subs: Seq<Submission>) -> bool {
    forall|k: int| 0 <= k < subs.len() ==> users.contains_key((#[trigger] subs[k]).user_id.0)
}

/// The headers of the submissions table.
pub open spec fn submission_headers() -> Seq<Seq<char>> {
    seq!["Name"@, "Filename"@, "Score"@, "Status"@]
}

proof fn lemma_saved_names_each(
    dir: Seq<char>,
    filename: Option<Seq<char>>,
    users: Map<u32, User>,
    subs: Seq<Submission>,
)
    ensures
        saved_names_exist(dir, filename, users, subs) <==> forall|k: int|
            0 <= k < subs.len() ==> saved_names_exist(dir, filename, users, seq![#[trigger] subs[k]]),
{
    assert forall|k: int| 0 <= k < subs.len() implies (saved_names_exist(dir, filename, users, seq![#[trigger] subs[k]])
        <==> (find_attachment_spec(filename, display_names(subs[k].attachments@)) matches Ok(i)
        ==> saved_name_spec(dir, users[subs[k].user_id.0].sortable_name@, display_names(subs[k].attachments@)[i])
        is Some)) by {
        let one = seq![subs[k]];
        assert(one[0] == subs[k]);
        if !saved_names_exist(dir, filename, users, one) {
            let j = choose|j: int| 0 <= j < one.len() && !(find_attachment_spec(filename, display_names((#[trigger] one[j]).attachments@))
                matches Ok(i) ==> saved_name_spec(dir, users[one[j].user_id.0].sortable_name@, display_names(one[j].attachments@)[i]) is Some);
            assert(j == 0);
        }
    }
}

/// A file to fetch: the table row it belongs to, where it comes from and
/// where it is saved.
pub struct DownloadJob {
    pub row: usize,
    pub url: String,
    pub path: String,
}

/// The jobs for the submissions `subs`, the first `n` of them: one for each
/// submission with attachments whose assignment file could be chosen.
pub open spec fn jobs_spec(
    dir: Seq<char>,
    filename: Option<Seq<char>>,
    users: Map<u32, User>,
    subs: Seq<Submission>,
    n: int,
) -> Seq<(int, Seq<char>, Seq<char>)>
    decreases n,
{
    if n <= 0 {
        seq![]
    } else {
        let rest = jobs_spec(dir, filename, users, subs, n - 1);
        let s = subs[n - 1];
        if s.attachments.len() == 0 {
            rest
        } else {
            match find_attachment_spec(filename, display_names(s.attachments@)) {
                Ok(i) => rest.push(
                    (
                        n - 1,
                        s.attachments@[i].url@,
                        saved_path_spec(dir, users[s.user_id.0].sortable_name@, s.attachments@[i].display_name@),
                    ),
                ),
                Err(_) => rest,
            }
        }
    }
}

/// The chosen attachment of submission `s`, when there is one.
pub open spec fn chosen(filename: Option<Seq<char>>, s: Submission) -> Attachment {
    s.attachments@[find_attachment_spec(filename, display_names(s.attachments@))->Ok_0]
}

/// Each job belongs to the row of the submission it was made from: that
/// submission has attachments, its assignment file could be chosen, and the
/// job fetches that file's address into the path saved for its user. The
/// jobs come in order of their rows, and every submission with a chosen
/// file among the first `n` has a job.
pub proof fn lemma_jobs_rows(
    dir: Seq<char>,
    filename: Option<Seq<char>>,
    users: Map<u32, User>,
    subs: Seq<Submission>,
    n: int,
)
    requires
        0 <= n <= subs.len(),
    ensures
        forall|m: int| 0 <= m < jobs_spec(dir, filename, users, subs, n).len() ==> {
            let j = #[trigger] jobs_spec(dir, filename, users, subs, n)[m];
            &&& 0 <= j.0 < n
            &&& subs[j.0].attachments@.len() > 0
            &&& find_attachment_spec(filename, display_names(subs[j.0].attachments@)) is Ok
            &&& j.1 == chosen(filename, subs[j.0]).url@
            &&& j.2 == saved_path_spec(
                dir,
                users[subs[j.0].user_id.0].sortable_name@,
                chosen(filename, subs[j.0]).display_name@,
            )
        },
        forall|m1: int, m2: int|
            0 <= m1 < m2 < jobs_spec(dir, filename, users, subs, n).len() ==> (#[trigger] jobs_spec(
                dir,
                filename,
                users,
                subs,
                n,
            )[m1]).0 < (#[trigger] jobs_spec(dir, filename, users, subs, n)[m2]).0,
        forall|k: int|
            0 <= k < n && (#[trigger] subs[k]).attachments@.len() > 0 && find_attachment_spec(
                filename,
                display_names(subs[k].attachments@),
            ) is Ok ==> exists|m: int|
                0 <= m < jobs_spec(dir, filename, users, subs, n).len() && (#[trigger] jobs_spec(
                    dir,
                    filename,
                    users,
                    subs,
                    n,
                )[m]).0 == k,
    decreases n,
{
    if n > 0 {
        lemma_jobs_rows(dir, filename, users, subs, n - 1);
        let rest = jobs_spec(dir, filename, users, subs, n - 1);
        let all = jobs_spec(dir, filename, users, subs, n);
        let s = subs[n - 1];
        if s.attachments.len() > 0 {
            if let Ok(i) = find_attachment_spec(filename, display_names(s.attachments@)) {
                assert(all == rest.push(
                    (
                        n - 1,
                        s.attachments@[i].url@,
                        saved_path_spec(dir, users[s.user_id.0].sortable_name@, s.attachments@[i].display_name@),
                    ),
                ));
                assert forall|m: int| 0 <= m < rest.len() implies all[m] == #[trigger] rest[m] by {}
                assert forall|k: int|
                    0 <= k < n && (#[trigger] subs[k]).attachments@.len() > 0 && find_attachment_spec(
                        filename,
                        display_names(subs[k].attachments@),
                    ) is Ok implies exists|m: int| 0 <= m < all.len() && (#[trigger] all[m]).0 == k by {
                    if k == n - 1 {
                        assert(all[rest.len() as int].0 == k);
                    } else {
                        let m = choose|m: int| 0 <= m < rest.len() && (#[trigger] rest[m]).0 == k;
                        assert(all[m] == rest[m]);
                    }
                }
            }
        }
    }
}

pub open spec fn job_view(j: DownloadJob) -> (int, Seq<char>, Seq<char>) {
    (j.row as int, j.url@, j.path@)
}

impl<'a> Assignment<'a> {
    /// The address listing the submissions to this assignment.
    pub fn submissions_url(&self) -> (r: String)
        ensures
            r@ == api_base() + "sections/"@ + nat_decimal(self.course.settings.section as nat)
                + "/assignments/"@ + nat_decimal(self.settings.id as nat)
                + "/submissions?per_page=100"@,
    {
        let mut r = String::from_str("https://wwu.instructure.com/api/v1/");
        r.append("sections/");
        append_chars(&mut r, &u64_decimal(self.course.settings.section as u64));
        r.append("/assignments/");
        append_chars(&mut r, &u64_decimal(self.settings.id as u64));
        r.append("/submissions?per_page=100");
        r
    }

    /// The path the attachment of `user` is saved at.
    pub fn submission_path(&self, user: &User, attachment: &Attachment) -> (r: String)
        ensures
            r@ == saved_path_spec(self.path@, user.sortable_name@, attachment.display_name@),
    {
        let mut name = snakeify(user.sortable_name.as_str());
        name.append("-");
        name.append(attachment.display_name.as_str());
        proof {
            reveal_strlit("-");
            assert("-"@ =~= seq!['-']);
        }
        join_path(self.path.as_str(), name.as_str())
    }

    /// The table row shown for submission `s`.
    pub fn submission_row(&self, s: &Submission, users: &Users) -> (r: Vec<String>)
        requires
            users@.contains_key(s.user_id.0),
            saved_names_exist(self.path@, opt_view(self.settings.filename), users@, seq![*s]),
        ensures
            texts_of(r@) == row_spec(self.path@, opt_view(self.settings.filename), users@[s.user_id.0], *s),
    {
        let user = users.get(s.user_id).unwrap();
        assert(seq![*s][0] == *s);
        let score = match &s.score {
            Some(t) => t.clone(),
            None => String::from_str("<not graded>"),
        };
        let mut row: Vec<String> = Vec::new();
        row.push(user.name.clone());
        if s.attachments.len() == 0 {
            row.push(String::from_str("<not submitted>"));
            row.push(score);
            row.push(String::from_str(""));
        } else {
            let file = match self.attachment_filename(user, s) {
                Ok(n) => n,
                Err(e) => e,
            };
            row.push(file);
            row.push(score);
            row.push(String::from_str("..."));
        }
        assert(texts_of(row@) =~= row_spec(self.path@, opt_view(self.settings.filename), users@[s.user_id.0], *s));
        row
    }

    /// The table row shown for submission `s`, when the file it would be
    /// saved under has a name; none otherwise.
    pub fn checked_row(&self, s: &Submission, users: &Users) -> (r: Option<Vec<String>>)
        requires
            users@.contains_key(s.user_id.0),
        ensures
            saved_names_exist(self.path@, opt_view(self.settings.filename), users@, seq![*s]) ==> (r matches Some(
                row,
            ) && texts_of(row@) == row_spec(
                self.path@,
                opt_view(self.settings.filename),
                users@[s.user_id.0],
                *s,
            )),
            !saved_names_exist(self.path@, opt_view(self.settings.filename), users@, seq![*s]) ==> r is None,
    {
        let ghost f = opt_view(self.settings.filename);
        let ghost names = display_names(s.attachments@);
        let n = s.attachments.len();
        match self.find_attachment(s) {
            Ok(i) => {
                proof {
                    lemma_choose_attachment_bounds(f, names);
                    let k = find_attachment_spec(f, names)->Ok_0;
                    assert(names.len() == s.attachments@.len());
                    assert(k == i as int);
                    assert(names[k] == s.attachments@[k].display_name@);
                }
                let user = users.get(s.user_id).unwrap();
                let path = self.submission_path(user, &s.attachments[i]);
                if file_name(path.as_str()).is_none() {
                    assert(!saved_names_exist(self.path@, f, users@, seq![*s])) by {
                        assert(seq![*s][0] == *s);
                    }
                    return None;
                }
            },
            Err(_) => {},
        }
        assert(saved_names_exist(self.path@, f, users@, seq![*s])) by {
            assert forall|k: int| 0 <= k < 1 implies (find_attachment_spec(
                f,
                display_names((#[trigger] seq![*s][k]).attachments@),
            ) matches Ok(i) ==> saved_name_spec(
                self.path@,
                users@[seq![*s][k].user_id.0].sortable_name@,
                display_names(seq![*s][k].attachments@)[i],
            ) is Some) by {
                assert(seq![*s][k] == *s);
            }
        }
        Some(self.submission_row(s, users))
    }

    /// The table shown for the (sorted) submissions `subs`: one row per
    /// submission, when every file to be saved has a name; none otherwise.
    pub fn submission_table(&self, subs: &Vec<Submission>, users: &Users) -> (r: Option<Table>)
        requires
            users_known(users@, subs@),
        ensures
            saved_names_exist(self.path@, opt_view(self.settings.filename), users@, subs@) ==> (r matches Some(t)
                && t@.headers == submission_headers() && t@.rows.len() == subs@.len() && (forall|k: int|
                0 <= k < subs@.len() ==> #[trigger] t@.rows[k] == row_spec(
                self.path@,
                opt_view(self.settings.filename),
                users@[subs@[k].user_id.0],
                subs@[k],
            )) && shaped(t@) && t@.widths == fitted_widths(t@.headers, t@.rows)),
            !saved_names_exist(self.path@, opt_view(self.settings.filename), users@, subs@) ==> r is None,
    {
        let ghost f = opt_view(self.settings.filename);
        proof {
            lemma_saved_names_each(self.path@, f, users@, subs@);
        }
        let mut rows: Vec<Vec<String>> = Vec::new();
        for k in 0..subs.len()
            invariant
                users_known(users@, subs@),
                f == opt_view(self.settings.filename),
                saved_names_exist(self.path@, f, users@, subs@) <==> forall|j: int|
                    0 <= j < subs@.len() ==> saved_names_exist(self.path@, f, users@, seq![#[trigger] subs@[j]]),
                rows@.len() == k,
                forall|j: int| 0 <= j < k ==> saved_names_exist(self.path@, f, users@, seq![#[trigger] subs@[j]]),
                forall|j: int| 0 <= j < k ==> cells((#[trigger] rows@[j])@) == row_spec(
                    self.path@,
                    f,
                    users@[subs@[j].user_id.0],
                    subs@[j],
                ),
                forall|j: int| 0 <= j < k ==> (#[trigger] rows@[j])@.len() == 4,
        {
            assert(users@.contains_key(subs@[k as int].user_id.0));
            match self.checked_row(&subs[k], users) {
                None => return None,
                Some(row) => {
                    proof {
                        assert(cells(row@).len() == row@.len());
                    }
                    rows.push(row);
                },
            }
        }
        let t = Table::with_rows(&["Name", "Filename", "Score", "Status"], &rows);
        proof {
            reveal_strlit("Name");
            reveal_strlit("Filename");
            reveal_strlit("Score");
            reveal_strlit("Status");
            assert(t@.headers =~= submission_headers());
            assert forall|k: int| 0 <= k < subs@.len() implies #[trigger] t@.rows[k] == row_spec(
                self.path@,
                f,
                users@[subs@[k].user_id.0],
                subs@[k],
            ) by {
                assert(t@.rows[k] == cells(rows@[k]@));
            }
        }
        Some(t)
    }

    /// The files to fetch for the (sorted) submissions `subs`.
    pub fn download_jobs(&self, subs: &Vec<Submission>, users: &Users) -> (r: Vec<DownloadJob>)
        requires
            users_known(users@, subs@),
        ensures
            r@.map_values(|j: DownloadJob| job_view(j)) == jobs_spec(
                self.path@,
                opt_view(self.settings.filename),
                users@,
                subs@,
                subs@.len() as int,
            ),
            forall|m: int| 0 <= m < r@.len() ==> {
                let row = (#[trigger] r@[m]).row as int;
                &&& row < subs@.len()
                &&& subs@[row].attachments@.len() > 0
                &&& find_attachment_spec(opt_view(self.settings.filename), display_names(subs@[row].attachments@))
                    is Ok
                &&& r@[m].url@ == chosen(opt_view(self.settings.filename), subs@[row]).url@
                &&& r@[m].path@ == saved_path_spec(
                    self.path@,
                    users@[subs@[row].user_id.0].sortable_name@,
                    chosen(opt_view(self.settings.filename), subs@[row]).display_name@,
                )
            },
            forall|m1: int, m2: int| 0 <= m1 < m2 < r@.len() ==> (#[trigger] r@[m1]).row < (#[trigger] r@[m2]).row,
            forall|k: int|
                0 <= k < subs@.len() && (#[trigger] subs@[k]).attachments@.len() > 0 && find_attachment_spec(
                    opt_view(self.settings.filename),
                    display_names(subs@[k].attachments@),
                ) is Ok ==> exists|m: int| 0 <= m < r@.len() && (#[trigger] r@[m]).row == k,
    {
        let ghost f = opt_view(self.settings.filename);
        let mut jobs: Vec<DownloadJob> = Vec::new();
        for i in 0..subs.len()
            invariant
                users_known(users@, subs@),
                f == opt_view(self.settings.filename),
                jobs@.map_values(|j: DownloadJob| job_view(j)) == jobs_spec(self.path@, f, users@, subs@, i as int),
        {
            let s = &subs[i];
            let ghost before = jobs@.map_values(|j: DownloadJob| job_view(j));
            if s.attachments.len() > 0 {
                let n = s.attachments.len();
                match self.find_attachment(s) {
                    Ok(k) => {
                        proof {
                            let names = display_names(s.attachments@);
                            lemma_choose_attachment_bounds(f, names);
                            let k0 = find_attachment_spec(f, names)->Ok_0;
                            assert(names.len() == s.attachments@.len());
                            assert(k0 == k as int);
                        }
                        assert(users@.contains_key(subs@[i as int].user_id.0));
                        let user = users.get(s.user_id).unwrap();
                        let a = &s.attachments[k];
                        let path = self.submission_path(user, a);
                        jobs.push(DownloadJob { row: i, url: a.url.clone(), path });
                        assert(jobs@.map_values(|j: DownloadJob| job_view(j)) =~= before.push(
                            job_view(jobs@[jobs@.len() - 1]),
                        ));
                    },
                    Err(_) => {},
                }
            }
        }
        proof {
            let js = jobs_spec(self.path@, f, users@, subs@, subs@.len() as int);
            lemma_jobs_rows(self.path@, f, users@, subs@, subs@.len() as int);
            assert forall|m: int| 0 <= m < jobs@.len() implies job_view(#[trigger] jobs@[m]) == js[m] by {
                assert(jobs@.map_values(|j: DownloadJob| job_view(j))[m] == job_view(jobs@[m]));
            }
            assert forall|k: int|
                0 <= k < subs@.len() && (#[trigger] subs@[k]).attachments@.len() > 0 && find_attachment_spec(
                    f,
                    display_names(subs@[k].attachments@),
                ) is Ok implies exists|m: int| 0 <= m < jobs@.len() && (#[trigger] jobs@[m]).row == k by {
                let m = choose|m: int| 0 <= m < js.len() && (#[trigger] js[m]).0 == k;
                assert(job_view(jobs@[m]) == js[m]);
            }
        }
        jobs
    }
}

pub open spec fn texts_of(v: Seq<String>) -> Seq<Seq<char>> {
    v.map_values(|t: String| t@)
}

/// What fetching a file found, against the file already saved (if any):
/// `new` and `changed` in yellow, `unchanged` in green.
pub open spec fn download_status_spec(existing: Option<Seq<u8>>, content: Seq<u8>) -> Seq<char> {
    match existing {
        None => yellow_spec("new"@),
        Some(old) => if old != content {
            yellow_spec("changed"@)
        } else {
            green_spec("unchanged"@)
        },
    }
}

/// The status shown for a fetched file, given the saved file's bytes, if it
/// exists.
pub fn download_status(existing: Option<&[u8]>, content: &[u8]) -> (r: String)
    ensures
        r@ == download_status_spec(
            match existing {
                Some(b) => Some(b@),
                None => None,
            },
            content@,
        ),
{
    match existing {
        None => yellow("new"),
        Some(old) => if !same_bytes(old, content) {
            yellow("changed")
        } else {
            green("unchanged")
        },
    }
}

/// Whether two byte strings are equal.
pub fn same_bytes(a: &[u8], b: &[u8]) -> (r: bool)
    ensures
        r == (a@ == b@),
{
    if a.len() != b.len() {
        return false;
    }
    for i in 0..a.len()
        invariant
            a@.len() == b@.len(),
            forall|j: int| 0 <= j < i ==> a@[j] == b@[j],
    {
        if a[i] != b[i] {
            return false;
        }
    }
    assert(a@ =~= b@);
    true
}

} // verus!
