//! Building messages.
use vstd::prelude::*;
use vstd::string::*;

verus! {

/// The character of a decimal digit.
pub open spec fn digit_char(d: nat) -> char {
    (48 + d) as char
}

/// A number in decimal, without leading zeros.
pub open spec fn decimal_text(n: nat) -> Seq<char>
    decreases n,
{
    if n < 10 {
        seq![digit_char(n)]
    } else {
        decimal_text(n / 10).push(digit_char(n % 10))
    }
}

/// Numbers in decimal, separated by commas, in square brackets.
pub open spec fn decimal_list_text(ns: Seq<u32>) -> Seq<char> {
    "["@ + joined_decimals(ns) + "]"@
}

/// Numbers in decimal, separated by commas.
pub open spec fn joined_decimals(ns: Seq<u32>) -> Seq<char>
    decreases ns.len(),
{
    if ns.len() == 0 {
        Seq::empty()
    } else if ns.len() == 1 {
        decimal_text(ns[0] as nat)
    } else {
        joined_decimals(ns.drop_last()) + ", "@ + decimal_text(ns.last() as nat)
    }
}

fn digit(d: u64) -> (r: &'static str)
    requires
        d < 10,
    ensures
        r@ == seq![digit_char(d as nat)],
{
    proof {
        reveal_strlit("0");
        reveal_strlit("1");
        reveal_strlit("2");
        reveal_strlit("3");
        reveal_strlit("4");
        reveal_strlit("5");
        reveal_strlit("6");
        reveal_strlit("7");
        reveal_strlit("8");
        reveal_strlit("9");
    }
    let r = if d == 0 {
        "0"
    } else if d == 1 {
        "1"
    } else if d == 2 {
        "2"
    } else if d == 3 {
        "3"
    } else if d == 4 {
        "4"
    } else if d == 5 {
        "5"
    } else if d == 6 {
        "6"
    } else if d == 7 {
        "7"
    } else if d == 8 {
        "8"
    } else {
        "9"
    };
    assert(r@ =~= seq![digit_char(d as nat)]);
    r
}

/// A number in decimal.
pub fn decimal(n: u64) -> (r: String)
    ensures
        r@ == decimal_text(n as nat),
    decreases n,
{
    if n < 10 {
        String::from_str(digit(n))
    } else {
        let mut r = decimal(n / 10);
        r.append(digit(n % 10));
        assert(r@ =~= decimal_text(n as nat));
        r
    }
}

/// A list of numbers in decimal.
pub fn decimal_list(ns: &Vec<u32>) -> (r: String)
    ensures
        r@ == decimal_list_text(ns@),
{
    let mut r = String::from_str("[");
    let mut i: usize = 0;
    while i < ns.len()
        invariant
            i <= ns.len(),
            r@ == "["@ + joined_decimals(ns@.take(i as int)),
        decreases ns.len() - i,
    {
        if i > 0 {
            r.append(", ");
        }
        r.append(decimal(ns[i] as u64).as_str());
        proof {
            let next = ns@.take(i + 1);
            assert(next.drop_last() =~= ns@.take(i as int));
            assert(r@ =~= "["@ + joined_decimals(next));
        }
        i = i + 1;
    }
    assert(ns@.take(i as int) =~= ns@);
    r.append("]");
    r
}

/// The texts one after the other.
pub fn join2(a: &str, b: &str) -> (r: String)
    ensures
        r@ == a@ + b@,
{
    let mut r = String::from_str(a);
    r.append(b);
    r
}

/// The texts one after the other.
pub fn join3(a: &str, b: &str, c: &str) -> (r: String)
    ensures
        r@ == a@ + b@ + c@,
{
    let mut r = join2(a, b);
    r.append(c);
    r
}

/// The texts one after the other.
pub fn join4(a: &str, b: &str, c: &str, d: &str) -> (r: String)
    ensures
        r@ == a@ + b@ + c@ + d@,
{
    let mut r = join3(a, b, c);
    r.append(d);
    r
}

/// A number with its sign in decimal.
pub open spec fn signed_text(n: int) -> Seq<char> {
    if n < 0 {
        "-"@ + decimal_text((-n) as nat)
    } else {
        decimal_text(n as nat)
    }
}

/// A number with its sign in decimal.
pub fn signed_decimal(n: i32) -> (r: String)
    ensures
        r@ == signed_text(n as int),
{
    if n < 0 {
        join2("-", decimal((-(n as i64)) as u64).as_str())
    } else {
        decimal(n as u64)
    }
}

/// Whether a text occurs at a place of another.
pub open spec fn occurs_at(text: Seq<char>, part: Seq<char>, at: int) -> bool {
    0 <= at && at + part.len() <= text.len() && text.subrange(at, at + part.len()) == part
}

/// Whether a text occurs in another.
pub open spec fn occurs_in(text: Seq<char>, part: Seq<char>) -> bool {
    exists|at: int| #[trigger] occurs_at(text, part, at)
}

/// The characters of a text.
fn chars_of(text: &str) -> (r: Vec<char>)
    ensures
        r@ == text@,
{
    let len: usize = text.unicode_len();
    let mut r: Vec<char> = Vec::new();
    let mut i: usize = 0;
    while i < len
        invariant
            i <= len,
            len == text@.len(),
            r@ == text@.take(i as int),
        decreases len - i,
    {
        r.push(text.get_char(i));
        i = i + 1;
    }
    assert(text@.take(i as int) =~= text@);
    r
}

/// Tells whether a text occurs in another.
pub fn contains_text(text: &str, part: &str) -> (r: bool)
    ensures
        r == occurs_in(text@, part@),
{
    let all = chars_of(text);
    let wanted = chars_of(part);
    if wanted.len() > all.len() {
        return false;
    }
    let last: usize = all.len() - wanted.len();
    let mut at: usize = 0;
    loop
        invariant
            all@ == text@,
            wanted@ == part@,
            at <= last,
            last == all@.len() - wanted@.len(),
            forall|k: int| 0 <= k < at ==> !#[trigger] occurs_at(text@, part@, k),
        decreases last - at,
    {
        let mut i: usize = 0;
        while i < wanted.len() && all[at + i] == wanted[i]
            invariant
                i <= wanted.len(),
                at <= last,
                last == all.len() - wanted.len(),
                forall|k: int| 0 <= k < i ==> all@[at + k] == #[trigger] wanted@[k],
            decreases wanted.len() - i,
        {
            i = i + 1;
        }
        if i == wanted.len() {
            assert(text@.subrange(at as int, at + part@.len()) =~= part@);
            assert(occurs_at(text@, part@, at as int));
            return true;
        }
        assert(!occurs_at(text@, part@, at as int)) by {
            if occurs_at(text@, part@, at as int) {
                assert(text@.subrange(at as int, at + part@.len())[i as int] == part@[i as int]);
            }
        }
        if at == last {
            assert forall|k: int| !#[trigger] occurs_at(text@, part@, k) by {}
            return false;
        }
        at = at + 1;
    }
}

proof fn lemma_decimal_value(n: nat, step: spec_fn(int, char) -> int)
    requires
        forall|v: int, c: char| #[trigger] step(v, c) == 10 * v + (c as int - '0' as int),
    ensures
        decimal_text(n).fold_left(0, step) == n,
        decimal_text(n).len() > 0,
        forall|i: int| 0 <= i < decimal_text(n).len() ==> '0' <= #[trigger] decimal_text(n)[i] <= '9',
        decimal_text(n)[0] == '0' <==> n == 0,
        decimal_text(n).len() == 1 <==> n < 10,
    decreases n,
{
    let text = decimal_text(n);
    reveal_with_fuel(Seq::fold_left, 2);
    if n < 10 {
        assert(text.drop_last() =~= Seq::empty());
        assert(text.last() == digit_char(n));
        assert(step(0, digit_char(n)) == n);
    } else {
        let rest = decimal_text(n / 10);
        lemma_decimal_value(n / 10, step);
        assert(text.drop_last() =~= rest);
        assert(text.last() == digit_char(n % 10));
        assert(text[0] == rest[0]);
        assert forall|i: int| 0 <= i < text.len() implies '0' <= #[trigger] text[i] <= '9' by {
            if i < rest.len() {
                assert(text[i] == rest[i]);
            }
        }
    }
}

/// A number in decimal consists of digits, has no leading zero, and reads back as itself, digit
/// by digit.
pub proof fn lemma_decimal_reads_back(n: nat)
    ensures
        decimal_text(n).fold_left(0int, |v: int, c: char| 10 * v + (c as int - '0' as int)) == n,
        forall|i: int| 0 <= i < decimal_text(n).len() ==> '0' <= #[trigger] decimal_text(n)[i] <= '9',
        decimal_text(n).len() > 0,
        decimal_text(n)[0] == '0' ==> decimal_text(n).len() == 1,
{
    lemma_decimal_value(n, |v: int, c: char| 10 * v + (c as int - '0' as int));
}

/// A negative number is written as the number without its sign, behind a minus.
pub proof fn lemma_sign_comes_first(n: nat)
    ensures
        signed_text(n as int) == decimal_text(n),
        n > 0 ==> signed_text(-(n as int)) == seq!['-'] + decimal_text(n),
{
    reveal_strlit("-");
    assert("-"@ =~= seq!['-']);
}

/// A list stands in brackets, and each number but the first behind a comma and a blank.
pub proof fn lemma_list_grows(ns: Seq<u32>, n: u32)
    ensures
        decimal_list_text(Seq::empty()) == seq!['[', ']'],
        decimal_list_text(seq![n]) == seq!['['] + decimal_text(n as nat) + seq![']'],
        ns.len() > 0 ==> decimal_list_text(ns.push(n)) == decimal_list_text(ns).drop_last() + seq![
            ',',
            ' ',
        ] + decimal_text(n as nat) + seq![']'],
{
    reveal_strlit("[");
    reveal_strlit("]");
    reveal_strlit(", ");
    assert("["@ =~= seq!['[']);
    assert("]"@ =~= seq![']']);
    assert(", "@ =~= seq![',', ' ']);
    assert(decimal_list_text(Seq::empty()) =~= seq!['[', ']']);
    if ns.len() > 0 {
        assert(ns.push(n).drop_last() =~= ns);
        assert(decimal_list_text(ns).drop_last() =~= "["@ + joined_decimals(ns));
        assert(decimal_list_text(ns.push(n)) =~= decimal_list_text(ns).drop_last() + seq![',', ' ']
            + decimal_text(n as nat) + seq![']']);
    }
}

/// A text occurs in another exactly where the other is it with something, or nothing, before
/// and behind it.
pub proof fn lemma_occurs_between(text: Seq<char>, part: Seq<char>)
    ensures
        occurs_in(text, part) <==> exists|before: Seq<char>, behind: Seq<char>|
            text == #[trigger] (before + part + behind),
{
    if occurs_in(text, part) {
        let at = choose|at: int| #[trigger] occurs_at(text, part, at);
        let before = text.subrange(0, at);
        let behind = text.subrange(at + part.len(), text.len() as int);
        assert forall|k: int| 0 <= k < part.len() implies text[at + k] == #[trigger] part[k] by {
            assert(text.subrange(at, at + part.len())[k] == part[k]);
        }
        assert(text =~= before + part + behind);
    }
    if exists|before: Seq<char>, behind: Seq<char>| text == #[trigger] (before + part + behind) {
        let (before, behind) = choose|before: Seq<char>, behind: Seq<char>|
            text == #[trigger] (before + part + behind);
        let at = before.len() as int;
        assert(text.subrange(at, at + part.len()) =~= part);
        assert(occurs_at(text, part, at));
    }
}

} // verus!
