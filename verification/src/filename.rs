//! Local file names: made safe for the file system, and never one that the
//! store already holds.

use vstd::prelude::*;
use vstd::string::StringExecFns;
use crate::document::File;

verus! {

/// The characters that a file name keeps: ASCII letters and digits, `-`
/// and `_`.
pub open spec fn keeps(c: char) -> bool {
    ||| '0' as u32 <= c as u32 <= '9' as u32
    ||| 'A' as u32 <= c as u32 <= 'Z' as u32
    ||| 'a' as u32 <= c as u32 <= 'z' as u32
    ||| c == '-'
    ||| c == '_'
}

/// A display name with every character that is not kept replaced by `_`.
pub open spec fn sanitized(name: Seq<char>) -> Seq<char> {
    Seq::new(name.len(), |i: int| if keeps(name[i]) { name[i] } else { '_' })
}

/// Calls `regex::Regex::new` on `pattern` and `Regex::replace_all` on the
/// compiled expression. The contract is stated for one pattern only, the
/// negated class of ASCII letters, digits, `-` and `_`, with the one-character
/// replacement `_`. That pattern compiles; it matches exactly the single
/// characters outside the class, and a replacement without `$` is inserted
/// literally, so each such character becomes `_` and all others stay.
#[verifier::external_body]
fn replace_all(pattern: &str, text: &str, replacement: &str) -> (r: String)
    requires
        pattern@ == "[^[:alnum:]-_]"@,
        replacement@ == "_"@,
    ensures
        r@ == sanitized(text@),
{
    regex::Regex::new(pattern).unwrap().replace_all(text, replacement).into_owned()
}

/// Replaces every character of `name` that a file name does not keep by `_`.
pub fn sanitize(name: &str) -> (r: String)
    ensures
        r@ == sanitized(name@),
{
    replace_all("[^[:alnum:]-_]", name, "_")
}

/// The decimal digit for `d` below ten.
pub open spec fn digit(d: nat) -> char {
    if d == 0 {
        '0'
    } else if d == 1 {
        '1'
    } else if d == 2 {
        '2'
    } else if d == 3 {
        '3'
    } else if d == 4 {
        '4'
    } else if d == 5 {
        '5'
    } else if d == 6 {
        '6'
    } else if d == 7 {
        '7'
    } else if d == 8 {
        '8'
    } else {
        '9'
    }
}

/// The decimal numeral of `n`, without leading zeros.
pub open spec fn decimal(n: nat) -> Seq<char>
    decreases n,
{
    if n < 10 {
        seq![digit(n)]
    } else {
        decimal(n / 10).push(digit(n % 10))
    }
}

/// The extension of every exported file.
pub open spec fn extension() -> Seq<char> {
    seq!['.', 'o', 'd', 't']
}

/// The `k`-th name tried for a stem: the stem with the extension, then the
/// stem with `_1`, `_2`, ... before the extension.
pub open spec fn candidate(stem: Seq<char>, k: nat) -> Seq<char> {
    if k == 0 {
        stem + extension()
    } else {
        stem + seq!['_'] + decimal(k) + extension()
    }
}

/// The names of a directory snapshot as sequences of characters.
pub open spec fn names(existing: Seq<String>) -> Seq<Seq<char>> {
    Seq::new(existing.len(), |i: int| existing[i]@)
}

/// `k` is the first candidate of `stem` that `taken` does not hold.
pub open spec fn is_first_free(taken: Seq<Seq<char>>, stem: Seq<char>, k: nat) -> bool {
    &&& !taken.contains(candidate(stem, k))
    &&& forall|j: nat| j < k ==> taken.contains(#[trigger] candidate(stem, j))
}

/// The index of the first free candidate of `stem`.
pub open spec fn first_free(taken: Seq<Seq<char>>, stem: Seq<char>) -> nat {
    choose|k: nat| is_first_free(taken, stem, k)
}

/// The name allocated for a document called `name` in a store that holds
/// the files `taken`.
pub open spec fn allocated(taken: Seq<Seq<char>>, name: Seq<char>) -> Seq<char> {
    candidate(sanitized(name), first_free(taken, sanitized(name)))
}

proof fn lemma_decimal_len(n: nat)
    ensures
        decimal(n).len() >= 1,
        n >= 10 ==> decimal(n).len() >= 2,
    decreases n,
{
    if n >= 10 {
        lemma_decimal_len(n / 10);
    }
}

/// Different numbers have different numerals.
pub proof fn lemma_decimal_injective(a: nat, b: nat)
    requires
        decimal(a) == decimal(b),
    ensures
        a == b,
    decreases a,
{
    lemma_decimal_len(a);
    lemma_decimal_len(b);
    if a < 10 && b < 10 {
        assert(decimal(a)[0] == digit(a));
        assert(decimal(b)[0] == digit(b));
    } else if a >= 10 && b >= 10 {
        assert(decimal(a).last() == digit(a % 10));
        assert(decimal(b).last() == digit(b % 10));
        assert(decimal(a).drop_last() =~= decimal(a / 10));
        assert(decimal(b).drop_last() =~= decimal(b / 10));
        lemma_decimal_injective(a / 10, b / 10);
    }
}

/// Different indices give different candidates of one stem.
pub proof fn lemma_candidate_injective(stem: Seq<char>, a: nat, b: nat)
    requires
        candidate(stem, a) == candidate(stem, b),
    ensures
        a == b,
{
    let n = stem.len() as int;
    if a == 0 && b != 0 {
        assert(candidate(stem, a)[n] == '.');
        assert(candidate(stem, b)[n] == '_');
    } else if a != 0 && b == 0 {
        assert(candidate(stem, b)[n] == '.');
        assert(candidate(stem, a)[n] == '_');
    } else if a != 0 && b != 0 {
        let la = decimal(a).len() as int;
        let lb = decimal(b).len() as int;
        assert(candidate(stem, a).len() == n + 1 + la + 4);
        assert(candidate(stem, b).len() == n + 1 + lb + 4);
        assert(candidate(stem, a).subrange(n + 1, n + 1 + la) =~= decimal(a));
        assert(candidate(stem, b).subrange(n + 1, n + 1 + lb) =~= decimal(b));
        lemma_decimal_injective(a, b);
    }
}

/// When the first `k` candidates of a stem are all taken, at least `k`
/// names are taken.
pub proof fn lemma_taken_bound(taken: Seq<Seq<char>>, stem: Seq<char>, k: nat)
    requires
        forall|j: nat| j < k ==> taken.contains(#[trigger] candidate(stem, j)),
    ensures
        k <= taken.len(),
    decreases k,
{
    if k > 0 {
        let last = candidate(stem, (k - 1) as nat);
        assert(taken.contains(last));
        let i = choose|i: int| 0 <= i < taken.len() && taken[i] == last;
        let rest = taken.remove(i);
        assert forall|j: nat| j < k - 1 implies rest.contains(#[trigger] candidate(stem, j)) by {
            let c = candidate(stem, j);
            assert(taken.contains(c));
            let m = choose|m: int| 0 <= m < taken.len() && taken[m] == c;
            if m == i {
                lemma_candidate_injective(stem, j, (k - 1) as nat);
            } else if m < i {
                assert(rest[m] == c);
            } else {
                assert(rest[m - 1] == c);
            }
        }
        lemma_taken_bound(rest, stem, (k - 1) as nat);
    }
}

proof fn lemma_free_from(taken: Seq<Seq<char>>, stem: Seq<char>, k: nat)
    requires
        forall|j: nat| j < k ==> taken.contains(#[trigger] candidate(stem, j)),
    ensures
        exists|m: nat| is_first_free(taken, stem, m),
    decreases taken.len() - k,
{
    lemma_taken_bound(taken, stem, k);
    if taken.contains(candidate(stem, k)) {
        lemma_taken_bound(taken, stem, k + 1);
        lemma_free_from(taken, stem, k + 1);
    } else {
        assert(is_first_free(taken, stem, k));
    }
}

/// Every stem has a first free candidate, and only one.
pub proof fn lemma_first_free(taken: Seq<Seq<char>>, stem: Seq<char>)
    ensures
        is_first_free(taken, stem, first_free(taken, stem)),
        forall|k: nat| is_first_free(taken, stem, k) ==> k == first_free(taken, stem),
{
    lemma_free_from(taken, stem, 0);
    let f = first_free(taken, stem);
    assert forall|k: nat| is_first_free(taken, stem, k) implies k == f by {
        if k < f {
            assert(taken.contains(candidate(stem, k)));
        } else if f < k {
            assert(taken.contains(candidate(stem, f)));
        }
    }
}

fn digit_str(d: u64) -> (r: &'static str)
    requires
        d < 10,
    ensures
        r@ == seq![digit(d as nat)],
{
    proof {
        reveal_strlit("0");
        reveal_strlit("1");
        reveal_strlit("2");
        reveal_strlit("3");
        reveal_strlit("4");
        reveal_strlit("5");
        reveal_strlit("6");
        reveal_strlit("7");
        reveal_strlit("8");
        reveal_strlit("9");
    }
    let r = if d == 0 {
        "0"
    } else if d == 1 {
        "1"
    } else if d == 2 {
        "2"
    } else if d == 3 {
        "3"
    } else if d == 4 {
        "4"
    } else if d == 5 {
        "5"
    } else if d == 6 {
        "6"
    } else if d == 7 {
        "7"
    } else if d == 8 {
        "8"
    } else {
        "9"
    };
    assert(r@ =~= seq![digit(d as nat)]);
    r
}

/// The decimal numeral of `n`.
pub fn decimal_string(n: u64) -> (r: String)
    ensures
        r@ == decimal(n as nat),
    decreases n,
{
    if n < 10 {
        String::from_str(digit_str(n))
    } else {
        let head = decimal_string(n / 10);
        let r = head.concat(digit_str(n % 10));
        assert(r@ =~= decimal(n as nat));
        r
    }
}

/// The `k`-th candidate name of `stem`.
pub fn candidate_string(stem: &String, k: u64) -> (r: String)
    ensures
        r@ == candidate(stem@, k as nat),
{
    proof {
        reveal_strlit("_");
        reveal_strlit(".odt");
    }
    let mut r = stem.clone();
    if k != 0 {
        r.append("_");
        let number = decimal_string(k);
        r.append(number.as_str());
    }
    r.append(".odt");
    assert(r@ =~= candidate(stem@, k as nat));
    r
}

/// Whether the snapshot `existing` holds a file called `name`.
pub fn is_taken(existing: &Vec<String>, name: &String) -> (r: bool)
    ensures
        r == names(existing@).contains(name@),
{
    let mut i: usize = 0;
    while i < existing.len()
        invariant
            i <= existing.len(),
            forall|j: int| 0 <= j < i ==> names(existing@)[j] != name@,
        decreases existing.len() - i,
    {
        if existing[i] == *name {
            assert(names(existing@)[i as int] == name@);
            return true;
        }
        i += 1;
    }
    false
}

/// Allocates the local name for `f` in a store whose files are `existing`:
/// the sanitized display name with the extension when that is free, else
/// the first of the numbered names that is.
pub fn get_new_filename(existing: &Vec<String>, f: &File) -> (r: String)
    ensures
        r@ == allocated(names(existing@), f.name@),
        is_first_free(
            names(existing@),
            sanitized(f.name@),
            first_free(names(existing@), sanitized(f.name@)),
        ),
{
    let stem = sanitize(f.name.as_str());
    let ghost taken = names(existing@);
    let mut k: u64 = 0;
    loop
        invariant
            taken == names(existing@),
            stem@ == sanitized(f.name@),
            forall|j: nat| j < k ==> taken.contains(#[trigger] candidate(stem@, j)),
        decreases existing.len() - k,
    {
        let name = candidate_string(&stem, k);
        proof {
            lemma_taken_bound(taken, stem@, k as nat);
        }
        if !is_taken(existing, &name) {
            proof {
                assert(is_first_free(taken, stem@, k as nat));
                lemma_first_free(taken, stem@);
            }
            return name;
        }
        proof {
            lemma_taken_bound(taken, stem@, (k + 1) as nat);
        }
        k = k + 1;
    }
}

} // verus!
