use vstd::prelude::*;

use crate::decimal::{is_digit, is_digit_char};
use crate::error::Error;

verus! {

/// Index of the last `'.'` of `name` that can separate a stem from an
/// extension (so at index 1 or later), or `-1` if there is none. A name
/// whose only dot leads it — a hidden file — has no extension.
pub open spec fn last_dot(name: Seq<char>) -> int
    decreases name.len(),
{
    if name.len() == 0 {
        -1
    } else if name.last() == '.' && name.len() >= 2 {
        name.len() - 1
    } else {
        last_dot(name.drop_last())
    }
}

/// Start of the maximal trailing run of ASCII digits in `stem`
/// (`stem.len()` when the run is empty).
pub open spec fn trailing_digit_start(stem: Seq<char>) -> int
    decreases stem.len(),
{
    if stem.len() == 0 {
        0
    } else if !is_digit_char(stem.last()) {
        stem.len() as int
    } else {
        trailing_digit_start(stem.drop_last())
    }
}

/// The three legacy extensions the normalizer rewrites.
pub open spec fn ext_recognized(ext: Seq<char>) -> bool {
    ext == seq!['i', 'n'] || ext == seq!['o', 'u', 't'] || ext == seq!['a', 'n', 's']
}

/// The canonical extension: `in` keeps itself; `out` and `ans` collapse to
/// `out`.
pub open spec fn map_ext(ext: Seq<char>) -> Seq<char> {
    if ext == seq!['i', 'n'] {
        ext
    } else {
        seq!['o', 'u', 't']
    }
}

/// What a file name normalizes to, if the pass touches it at all: a name
/// with a recognized extension becomes `<digits>.<mapped-ext>`, where
/// `<digits>` is the maximal trailing digit run of the stem; a stem with no
/// trailing digits keeps its whole stem. Any other name is left alone.
pub open spec fn norm_target(name: Seq<char>) -> Option<Seq<char>> {
    let ld = last_dot(name);
    if ld < 1 {
        None
    } else {
        let stem = name.subrange(0, ld);
        let ext = name.subrange(ld + 1, name.len() as int);
        if !ext_recognized(ext) {
            None
        } else {
            let k = trailing_digit_start(stem);
            let new_stem = if k == stem.len() {
                stem
            } else {
                stem.subrange(k, stem.len() as int)
            };
            Some(new_stem + seq!['.'] + map_ext(ext))
        }
    }
}

/// The name an entry carries once the pass has run: its normalization
/// target, or itself where the pass does not apply.
pub open spec fn final_name(name: Seq<char>) -> Seq<char> {
    match norm_target(name) {
        Some(t) => t,
        None => name,
    }
}

pub proof fn lemma_last_dot_bounds(s: Seq<char>)
    ensures
        -1 <= last_dot(s) < s.len() || (s.len() == 0 && last_dot(s) == -1),
        last_dot(s) != -1 ==> 1 <= last_dot(s) < s.len() && s[last_dot(s)] == '.',
        forall|j: int| 1 <= j < s.len() && last_dot(s) < j ==> #[trigger] s[j] != '.',
    decreases s.len(),
{
    if s.len() == 0 {
    } else if s.last() == '.' && s.len() >= 2 {
    } else {
        lemma_last_dot_bounds(s.drop_last());
        assert forall|j: int| 1 <= j < s.len() && last_dot(s) < j implies #[trigger] s[j]
            != '.' by {
            if j < s.len() - 1 {
                assert(s.drop_last()[j] == s[j]);
            }
        }
    }
}

pub proof fn lemma_last_dot_unique(s: Seq<char>, i: int)
    requires
        1 <= i < s.len(),
        s[i] == '.',
        forall|j: int| i < j < s.len() ==> #[trigger] s[j] != '.',
    ensures
        last_dot(s) == i,
{
    lemma_last_dot_bounds(s);
}

pub proof fn lemma_last_dot_missing(s: Seq<char>)
    requires
        forall|j: int| 1 <= j < s.len() ==> #[trigger] s[j] != '.',
    ensures
        last_dot(s) == -1,
{
    lemma_last_dot_bounds(s);
    if last_dot(s) != -1 {
        assert(s[last_dot(s)] == '.');
    }
}

pub proof fn lemma_tds_bounds(s: Seq<char>)
    ensures
        0 <= trailing_digit_start(s) <= s.len(),
        forall|j: int|
            trailing_digit_start(s) <= j < s.len() ==> is_digit_char(#[trigger] s[j]),
        trailing_digit_start(s) >= 1 ==> !is_digit_char(s[trailing_digit_start(s) - 1]),
    decreases s.len(),
{
    if s.len() == 0 {
    } else if !is_digit_char(s.last()) {
    } else {
        lemma_tds_bounds(s.drop_last());
        assert forall|j: int|
            trailing_digit_start(s) <= j < s.len() implies is_digit_char(#[trigger] s[j]) by {
            if j < s.len() - 1 {
                assert(s.drop_last()[j] == s[j]);
            }
        }
    }
}

pub proof fn lemma_tds_unique(s: Seq<char>, k: int)
    requires
        0 <= k <= s.len(),
        forall|j: int| k <= j < s.len() ==> is_digit_char(#[trigger] s[j]),
        k >= 1 ==> !is_digit_char(s[k - 1]),
    ensures
        trailing_digit_start(s) == k,
{
    lemma_tds_bounds(s);
}

/// Normalization is idempotent: a name the pass rewrites is rewritten to a
/// fixed point, so running the pass again over an already-normalized tree
/// changes nothing.
pub proof fn law_normalize_idempotent(name: Seq<char>)
    requires
        norm_target(name) is Some,
    ensures
        norm_target(norm_target(name).unwrap()) == Some(norm_target(name).unwrap()),
{
    let ld = last_dot(name);
    lemma_last_dot_bounds(name);
    let stem = name.subrange(0, ld);
    let ext = name.subrange(ld + 1, name.len() as int);
    let k = trailing_digit_start(stem);
    lemma_tds_bounds(stem);
    let new_stem = if k == stem.len() {
        stem
    } else {
        stem.subrange(k, stem.len() as int)
    };
    let e2 = map_ext(ext);
    let t = new_stem + seq!['.'] + e2;
    assert(norm_target(name) == Some(t));
    let ld2 = new_stem.len() as int;
    assert(t[ld2] == '.');
    assert(new_stem.len() >= 1);
    assert forall|j: int| ld2 < j < t.len() implies #[trigger] t[j] != '.' by {
        assert(t[j] == e2[j - ld2 - 1]);
        if ext == seq!['i', 'n'] {
            assert(e2 == seq!['i', 'n']);
        } else {
            assert(e2 == seq!['o', 'u', 't']);
        }
    }
    lemma_last_dot_unique(t, ld2);
    assert(t.subrange(0, ld2) =~= new_stem);
    assert(t.subrange(ld2 + 1, t.len() as int) =~= e2);
    assert(ext_recognized(e2));
    assert(map_ext(e2) == e2);
    if k == stem.len() {
        lemma_tds_unique(new_stem, new_stem.len() as int);
        assert(norm_target(t) == Some(new_stem + seq!['.'] + e2));
    } else {
        assert forall|j: int| 0 <= j < new_stem.len() implies is_digit_char(
            #[trigger] new_stem[j],
        ) by {
            assert(new_stem[j] == stem[j + k]);
        }
        lemma_tds_unique(new_stem, 0);
        assert(new_stem.subrange(0, new_stem.len() as int) =~= new_stem);
        assert(norm_target(t) == Some(new_stem + seq!['.'] + e2));
    }
}

/// Rewrites one file name to its canonical form, or reports that the pass
/// leaves it untouched.
pub fn normalize_name(name: &str) -> (r: Option<String>)
    ensures
        norm_target(name@) matches Some(t) ==> (r matches Some(out) && out@ == t),
        norm_target(name@) is None ==> r is None,
{
    let len: usize = name.unicode_len();
    let mut ld: usize = 0;
    let mut j: usize = 1;
    while j < len
        invariant
            1 <= j,
            j <= len || j == 1,
            len == name@.len(),
            ld == 0 || (1 <= ld && ld < j && name@[ld as int] == '.'),
            forall|q: int| 1 <= q < j && q < len && ld < q ==> #[trigger] name@[q] != '.',
        decreases len - j,
    {
        if name.get_char(j) == '.' {
            ld = j;
        }
        j = j + 1;
    }
    if ld == 0 {
        proof {
            lemma_last_dot_missing(name@);
        }
        return None;
    }
    proof {
        lemma_last_dot_unique(name@, ld as int);
    }
    let ext: &str = name.substring_char(ld + 1, len);
    let ext_len: usize = len - ld - 1;
    proof {
        assert(ext@.len() == ext_len);
    }
    let is_in: bool = ext_len == 2 && ext.get_char(0) == 'i' && ext.get_char(1) == 'n';
    let is_out: bool = ext_len == 3 && ext.get_char(0) == 'o' && ext.get_char(1) == 'u'
        && ext.get_char(2) == 't';
    let is_ans: bool = ext_len == 3 && ext.get_char(0) == 'a' && ext.get_char(1) == 'n'
        && ext.get_char(2) == 's';
    proof {
        if is_in {
            assert(ext@ =~= seq!['i', 'n']);
        }
        if is_out {
            assert(ext@ =~= seq!['o', 'u', 't']);
        }
        if is_ans {
            assert(ext@ =~= seq!['a', 'n', 's']);
        }
        if !(is_in || is_out || is_ans) {
            if ext@ == seq!['i', 'n'] {
                assert(ext@.len() == 2 && ext@[0] == 'i' && ext@[1] == 'n');
            }
            if ext@ == seq!['o', 'u', 't'] {
                assert(ext@.len() == 3 && ext@[0] == 'o' && ext@[1] == 'u' && ext@[2] == 't');
            }
            if ext@ == seq!['a', 'n', 's'] {
                assert(ext@.len() == 3 && ext@[0] == 'a' && ext@[1] == 'n' && ext@[2] == 's');
            }
        }
    }
    if !(is_in || is_out || is_ans) {
        return None;
    }
    let ghost stem: Seq<char> = name@.subrange(0, ld as int);
    let mut k: usize = ld;
    while k > 0 && is_digit(name.get_char(k - 1))
        invariant
            0 <= k <= ld,
            ld < len,
            len == name@.len(),
            stem == name@.subrange(0, ld as int),
            forall|q: int| k <= q < ld ==> is_digit_char(#[trigger] name@[q]),
        decreases k,
    {
        k = k - 1;
    }
    proof {
        assert(forall|q: int| 0 <= q < stem.len() ==> stem[q] == name@[q]);
        lemma_tds_unique(stem, k as int);
    }
    let start: usize = if k == ld {
        0
    } else {
        k
    };
    let new_stem: &str = name.substring_char(start, ld);
    let base: String = String::from_str(new_stem).concat(".");
    let result: String = if is_in {
        base.concat(ext)
    } else {
        base.concat("out")
    };
    proof {
        reveal_strlit(".");
        reveal_strlit("out");
        let t = norm_target(name@).unwrap();
        assert(result@ =~= t);
    }
    Some(result)
}

/// One planned rename: the entry's current name and its canonical name.
#[derive(Debug, PartialEq, Eq, Clone)]
pub struct Rename {
    pub from: String,
    pub to: String,
}

/// Plans the normalization pass over the distinct entries of one
/// directory: every entry is assigned its final name, and the pass refuses
/// to proceed if two entries would end up with the same name — nothing is
/// ever silently overwritten.
pub fn plan_renames(names: &Vec<String>) -> (r: Result<Vec<Rename>, Error>)
    requires
        forall|i: int, j: int|
            0 <= i < j < names@.len() ==> (#[trigger] names@[i])@ != (#[trigger] names@[j])@,
    ensures
        r matches Ok(plan) ==> {
            &&& plan@.len() == names@.len()
            &&& forall|i: int|
                0 <= i < plan@.len() ==> (#[trigger] plan@[i]).from@ == names@[i]@
                    && plan@[i].to@ == final_name(names@[i]@)
            &&& forall|i: int, j: int|
                0 <= i < j < names@.len() ==> final_name((#[trigger] names@[i])@) != final_name(
                    (#[trigger] names@[j])@,
                )
        },
        r matches Err(e) ==> e == Error::RenameCollision && exists|i: int, j: int|
            0 <= i < j < names@.len() && final_name((#[trigger] names@[i])@) == final_name(
                (#[trigger] names@[j])@,
            ),
{
    let n: usize = names.len();
    let mut plan: Vec<Rename> = Vec::new();
    let mut idx: usize = 0;
    while idx < n
        invariant
            0 <= idx <= n,
            n == names@.len(),
            plan@.len() == idx,
            forall|i: int|
                0 <= i < idx ==> (#[trigger] plan@[i]).from@ == names@[i]@ && plan@[i].to@
                    == final_name(names@[i]@),
        decreases n - idx,
    {
        let from: String = names[idx].clone();
        let to: String = match normalize_name(names[idx].as_str()) {
            Some(t) => t,
            None => names[idx].clone(),
        };
        plan.push(Rename { from, to });
        idx = idx + 1;
    }
    let mut i: usize = 0;
    while i < n
        invariant
            0 <= i <= n,
            n == names@.len(),
            plan@.len() == n,
            forall|q: int|
                0 <= q < n ==> (#[trigger] plan@[q]).from@ == names@[q]@ && plan@[q].to@
                    == final_name(names@[q]@),
            forall|p: int, q: int|
                0 <= p < q < n && p < i ==> final_name((#[trigger] names@[p])@) != final_name(
                    (#[trigger] names@[q])@,
                ),
        decreases n - i,
    {
        let mut j: usize = i + 1;
        while j < n
            invariant
                0 <= i < j,
                j <= n,
                n == names@.len(),
                plan@.len() == n,
                forall|q: int|
                    0 <= q < n ==> (#[trigger] plan@[q]).from@ == names@[q]@ && plan@[q].to@
                        == final_name(names@[q]@),
                forall|q: int|
                    i < q < j ==> final_name((#[trigger] names@[i as int])@) != final_name(
                        names@[q]@,
                    ),
            decreases n - j,
        {
            if plan[i].to == plan[j].to {
                return Err(Error::RenameCollision);
            }
            j = j + 1;
        }
        i = i + 1;
    }
    Ok(plan)
}

} // verus!
