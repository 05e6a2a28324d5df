//! Text forms used when naming stage modules and their FIFO ports.

use vstd::prelude::*;
use vstd::string::*;

verus! {

/// The character that writes the digit `d`, for `d` below ten.
pub open spec fn digit_char(d: nat) -> char {
    if d == 0 {
        '0'
    } else if d == 1 {
        '1'
    } else if d == 2 {
        '2'
    } else if d == 3 {
        '3'
    } else if d == 4 {
        '4'
    } else if d == 5 {
        '5'
    } else if d == 6 {
        '6'
    } else if d == 7 {
        '7'
    } else if d == 8 {
        '8'
    } else {
        '9'
    }
}

/// The decimal numeral of `n`, most significant digit first, without leading zeros.
pub open spec fn decimal(n: nat) -> Seq<char>
    decreases n,
{
    if n < 10 {
        seq![digit_char(n)]
    } else {
        decimal(n / 10).push(digit_char(n % 10))
    }
}

/// The name of the FIFO port that carries the value with key `key` into a stage.
pub open spec fn buffered_name(key: usize) -> Seq<char> {
    "buffered_"@ + decimal(key as nat)
}

/// The name of the module that holds stage `level` of the module named `base`.
pub open spec fn stage_name(base: Seq<char>, level: usize) -> Seq<char> {
    base + "_"@ + decimal(level as nat)
}

/// The file suffix of a dynamic library on the operating system named `target_os`.
pub open spec fn dynamiclib_suffix_of(target_os: Seq<char>) -> Seq<char> {
    if target_os == "windows"@ {
        ".dll"@
    } else if target_os == "macos"@ {
        ".dylib"@
    } else {
        ".so"@
    }
}

fn digit_str(d: usize) -> (r: &'static str)
    requires
        d < 10,
    ensures
        r@ == seq![digit_char(d as nat)],
{
    proof {
        reveal_strlit("0");
        reveal_strlit("1");
        reveal_strlit("2");
        reveal_strlit("3");
        reveal_strlit("4");
        reveal_strlit("5");
        reveal_strlit("6");
        reveal_strlit("7");
        reveal_strlit("8");
        reveal_strlit("9");
    }
    let r: &'static str = if d == 0 {
        "0"
    } else if d == 1 {
        "1"
    } else if d == 2 {
        "2"
    } else if d == 3 {
        "3"
    } else if d == 4 {
        "4"
    } else if d == 5 {
        "5"
    } else if d == 6 {
        "6"
    } else if d == 7 {
        "7"
    } else if d == 8 {
        "8"
    } else {
        "9"
    };
    assert(r@ =~= seq![digit_char(d as nat)]);
    r
}

/// Appends the decimal numeral of `n` to `out`.
pub fn push_decimal(out: &mut String, n: usize)
    ensures
        final(out)@ == old(out)@ + decimal(n as nat),
    decreases n,
{
    if n >= 10 {
        push_decimal(out, n / 10);
        out.append(digit_str(n % 10));
        assert(out@ =~= old(out)@ + decimal(n as nat));
    } else {
        out.append(digit_str(n));
    }
}

/// Builds the name of the FIFO port that carries the value with key `key`.
pub fn buffered_port_name(key: usize) -> (r: String)
    ensures
        r@ == buffered_name(key),
{
    let mut out = String::from_str("buffered_");
    push_decimal(&mut out, key);
    out
}

/// Builds the name of the module for stage `level` of the module named `base`.
pub fn stage_module_name(base: &str, level: usize) -> (r: String)
    ensures
        r@ == stage_name(base@, level),
{
    let mut out = String::from_str(base);
    out.append("_");
    push_decimal(&mut out, level);
    out
}

/// Picks the dynamic library suffix for the operating system named `target_os`.
pub fn dynamiclib_suffix(target_os: &str) -> (r: &'static str)
    ensures
        r@ == dynamiclib_suffix_of(target_os@),
{
    let os = String::from_str(target_os);
    if os == String::from_str("windows") {
        ".dll"
    } else if os == String::from_str("macos") {
        ".dylib"
    } else {
        ".so"
    }
}

/// Two numbers with the same decimal numeral are equal.
pub proof fn lemma_decimal_injective(a: nat, b: nat)
    requires
        decimal(a) == decimal(b),
    ensures
        a == b,
    decreases a,
{
    lemma_decimal_len(a);
    lemma_decimal_len(b);
    if a < 10 && b < 10 {
        assert(decimal(a)[0] == digit_char(a));
        assert(decimal(b)[0] == digit_char(b));
        lemma_digit_char_injective(a, b);
    } else if a >= 10 && b >= 10 {
        let pa = decimal(a / 10);
        let pb = decimal(b / 10);
        assert(decimal(a).drop_last() =~= pa);
        assert(decimal(b).drop_last() =~= pb);
        assert(decimal(a).last() == digit_char(a % 10));
        assert(decimal(b).last() == digit_char(b % 10));
        lemma_decimal_injective(a / 10, b / 10);
        lemma_digit_char_injective(a % 10, b % 10);
    } else if a < 10 {
        lemma_decimal_len(b / 10);
        assert(decimal(b).len() >= 2);
    } else {
        lemma_decimal_len(a / 10);
        assert(decimal(a).len() >= 2);
    }
}

/// Distinct digits are written with distinct characters.
pub proof fn lemma_digit_char_injective(a: nat, b: nat)
    requires
        a < 10,
        b < 10,
        digit_char(a) == digit_char(b),
    ensures
        a == b,
{
}

/// A decimal numeral has at least one digit.
pub proof fn lemma_decimal_len(n: nat)
    ensures
        decimal(n).len() >= 1,
        n >= 10 ==> decimal(n).len() == decimal(n / 10).len() + 1,
    decreases n,
{
    if n >= 10 {
        lemma_decimal_len(n / 10);
    }
}

/// Distinct keys give distinct port names.
pub proof fn law_port_names_distinct(a: usize, b: usize)
    requires
        buffered_name(a) == buffered_name(b),
    ensures
        a == b,
{
    let p = "buffered_"@;
    let da = decimal(a as nat);
    let db = decimal(b as nat);
    assert((p + da).subrange(p.len() as int, (p + da).len() as int) =~= da);
    assert((p + db).subrange(p.len() as int, (p + db).len() as int) =~= db);
    lemma_decimal_len(a as nat);
    lemma_decimal_len(b as nat);
    assert((p + da).len() == (p + db).len());
    lemma_decimal_injective(a as nat, b as nat);
}

} // verus!
