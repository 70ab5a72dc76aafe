//! The `Plural-Forms` header: number of plural forms and selection rule.

use vstd::prelude::*;
use crate::text::{chars_of, push_char, push_str, split, split_chars, string_of, trim_chars, trimmed};

verus! {

/// The character of a decimal digit `d < 10`.
pub open spec fn digit_char(d: nat) -> char {
    ((d + 48) as u8) as char
}

/// The decimal form of `n`, without leading zeros.
pub open spec fn decimal(n: nat) -> Seq<char>
    decreases n,
{
    if n < 10 {
        seq![digit_char(n)]
    } else {
        decimal(n / 10).push(digit_char(n % 10))
    }
}

/// Whether every character of `s` is a decimal digit.
pub open spec fn all_digits(s: Seq<char>) -> bool {
    forall|i: int| 0 <= i < s.len() ==> '0' <= #[trigger] s[i] && s[i] <= '9'
}

/// The number that the decimal digits `s` write.
pub open spec fn digits_value(s: Seq<char>) -> nat
    decreases s.len(),
{
    if s.len() == 0 {
        0
    } else {
        digits_value(s.drop_last()) * 10 + (s.last() as nat - '0' as nat) as nat
    }
}

/// What `usize::from_str` gives: an optional `+` followed by one or more
/// decimal digits whose value fits in a `usize`.
pub open spec fn usize_of(s: Seq<char>) -> Option<usize> {
    let d = if s.len() > 0 && s[0] == '+' {
        s.drop_first()
    } else {
        s
    };
    if d.len() > 0 && all_digits(d) && digits_value(d) <= usize::MAX {
        Some(digits_value(d) as usize)
    } else {
        None
    }
}

/// Appends the decimal form of `n`.
pub(crate) fn push_decimal(s: &mut String, n: usize)
    ensures
        final(s)@ == old(s)@ + decimal(n as nat),
    decreases n,
{
    if n >= 10 {
        push_decimal(s, n / 10);
    }
    let d = (n % 10) as u8;
    push_char(s, (d + 48) as char);
    proof {
        if n < 10 {
            assert(decimal(n as nat) == seq![digit_char(n as nat)]);
        }
    }
    assert(final(s)@ =~= old(s)@ + decimal(n as nat)) by {
        if n >= 10 {
            assert(decimal(n as nat) == decimal((n / 10) as nat).push(digit_char((n % 10) as nat)));
        }
    }
}

/// Parses `v[lo..hi]` as `usize::from_str` does.
pub(crate) fn parse_usize(v: &Vec<char>, lo: usize, hi: usize) -> (r: Option<usize>)
    requires
        lo <= hi <= v@.len(),
    ensures
        r == usize_of(v@.subrange(lo as int, hi as int)),
{
    let ghost s = v@.subrange(lo as int, hi as int);
    let mut a = lo;
    if a < hi && v[a] == '+' {
        a += 1;
    }
    let ghost d = v@.subrange(a as int, hi as int);
    assert(d =~= (if s.len() > 0 && s[0] == '+' { s.drop_first() } else { s }));
    if a == hi {
        return None;
    }
    let mut n: usize = 0;
    let mut over = false;
    let mut i = a;
    while i < hi
        invariant
            lo <= a <= i <= hi <= v@.len(),
            s == v@.subrange(lo as int, hi as int),
            d == (if s.len() > 0 && s[0] == '+' { s.drop_first() } else { s }),
            d == v@.subrange(a as int, hi as int),
            all_digits(v@.subrange(a as int, i as int)),
            !over ==> n == digits_value(v@.subrange(a as int, i as int)),
            over ==> digits_value(v@.subrange(a as int, i as int)) > usize::MAX,
        decreases hi - i,
    {
        let c = v[i];
        if !('0' <= c && c <= '9') {
            assert(!all_digits(d)) by {
                assert(d[i - a] == c);
            }
            return None;
        }
        let ghost prev = v@.subrange(a as int, i as int);
        let ghost next = v@.subrange(a as int, i + 1);
        assert(next.drop_last() =~= prev);
        assert(all_digits(next));
        let x = (c as u32 - '0' as u32) as usize;
        assert(digits_value(next) == digits_value(prev) * 10 + x);
        if !over {
            if n > (usize::MAX - x) / 10 {
                over = true;
                assert(digits_value(next) > usize::MAX) by (nonlinear_arith)
                    requires
                        n > (usize::MAX - x) / 10,
                        digits_value(next) == n * 10 + x,
                        x <= 9,
                ;
            } else {
                assert(n * 10 + x <= usize::MAX) by (nonlinear_arith)
                    requires
                        n <= (usize::MAX - x) / 10,
                        x <= 9,
                ;
                n = n * 10 + x;
            }
        } else {
            assert(digits_value(next) >= digits_value(prev)) by (nonlinear_arith)
                requires
                    digits_value(next) == digits_value(prev) * 10 + x,
            ;
        }
        i += 1;
    }
    if over {
        None
    } else {
        Some(n)
    }
}

/// The state of a `Plural-Forms` parse: the `nplurals` and `plural`
/// entries met so far.
pub type PluralScan = (Option<usize>, Option<Seq<char>>);

/// One `;`-separated entry `rule` (already trimmed) applied to the scan, or
/// `None` when the entry is malformed: no `=`, an unknown key, or an
/// `nplurals` value that is no `usize`.
pub open spec fn plural_step(st: PluralScan, rule: Seq<char>) -> Option<PluralScan> {
    if rule.len() == 0 {
        Some(st)
    } else if !crate::text::has_char(rule, '=') {
        None
    } else {
        let e = crate::text::find_char(rule, '=');
        let key = rule.take(e);
        let value = rule.subrange(e + 1, rule.len() as int);
        if key == "nplurals"@ {
            match usize_of(value) {
                Some(n) => Some((Some(n), st.1)),
                None => None,
            }
        } else if key == "plural"@ {
            Some((st.0, Some(value)))
        } else {
            None
        }
    }
}

/// The entries `segs` applied in turn, or `None` at the first malformed one.
pub open spec fn plural_scan(segs: Seq<Seq<char>>) -> Option<PluralScan>
    decreases segs.len(),
{
    if segs.len() == 0 {
        Some((None, None))
    } else {
        match plural_scan(segs.drop_last()) {
            Some(st) => plural_step(st, trimmed(segs.last())),
            None => None,
        }
    }
}

proof fn lemma_scan_stuck(segs: Seq<Seq<char>>, k: int)
    requires
        0 <= k <= segs.len(),
        plural_scan(segs.take(k)) is None,
    ensures
        plural_scan(segs) is None,
    decreases segs.len() - k,
{
    if k < segs.len() {
        assert(segs.take(k + 1).drop_last() =~= segs.take(k));
        lemma_scan_stuck(segs, k + 1);
    } else {
        assert(segs.take(k) =~= segs);
    }
}

/// The rules that a `Plural-Forms` value states, as (`nplurals`, `plural`),
/// or `None` when it is malformed, lacks either entry, has zero `nplurals`,
/// or an empty expression.
pub open spec fn plural_rules_of(s: Seq<char>) -> Option<(usize, Seq<char>)> {
    match plural_scan(split(s, ';')) {
        Some((Some(n), Some(e))) => if n == 0 || e.len() == 0 {
            None
        } else {
            Some((n, e))
        },
        _ => None,
    }
}

/// The text form of plural rules: `nplurals=N; plural=EXPR;`.
pub open spec fn plural_rules_text(nplurals: usize, expr: Seq<char>) -> Seq<char> {
    "nplurals="@ + decimal(nplurals as nat) + "; plural="@ + expr + ";"@
}

/// The plural form rules of the target language. The selection expression
/// is kept as text and is not evaluated.
#[derive(Debug)]
pub struct CatalogPluralRules {
    /// Number of plural forms, the singular form included.
    pub nplurals: usize,
    /// The plural form selection expression, a function of `n`.
    pub expr: String,
}

/// Error in a `Plural-Forms` value.
#[derive(Debug)]
pub struct PluralRulesError {
    /// What is wrong.
    pub message: String,
}

impl PluralRulesError {
    fn new(message: &str) -> (r: Self)
        ensures
            r.message@ == message@,
    {
        PluralRulesError { message: message.to_owned() }
    }
}

impl CatalogPluralRules {
    /// The rules of a language with one form: `nplurals=1; plural=0;`.
    pub fn new() -> (r: Self)
        ensures
            r.nplurals == 1,
            r.expr@ == "0"@,
    {
        CatalogPluralRules { nplurals: 1, expr: "0".to_owned() }
    }

    /// Parses a `Plural-Forms` value such as `nplurals=2; plural=(n != 1);`.
    pub fn parse(rules: &str) -> (r: Result<Self, PluralRulesError>)
        ensures
            match r {
                Ok(p) => plural_rules_of(rules@) == Some((p.nplurals, p.expr@)),
                Err(_) => plural_rules_of(rules@) is None,
            },
    {
        let v = chars_of(rules);
        let segs = split_chars(&v, ';');
        let mut nplurals: Option<usize> = None;
        let mut expr: Option<String> = None;
        let mut k: usize = 0;
        while k < segs.len()
            invariant
                0 <= k <= segs@.len(),
                v@ == rules@,
                segs@.len() == split(v@, ';').len(),
                forall|j: int| 0 <= j < segs@.len() ==> (#[trigger] segs@[j])@ == split(v@, ';')[j],
                plural_scan(split(v@, ';').take(k as int)) == Some(
                    (
                        nplurals,
                        match expr {
                            Some(e) => Some(e@),
                            None => None,
                        },
                    ),
                ),
            decreases segs.len() - k,
        {
            let seg = &segs[k];
            assert(split(v@, ';').take(k + 1).drop_last() =~= split(v@, ';').take(k as int));
            assert(seg@.subrange(0, seg@.len() as int) =~= seg@);
            let rule = trim_chars(seg, 0, seg.len());
            if rule.len() > 0 {
                let mut e: usize = 0;
                assert(rule@.subrange(0, rule@.len() as int) =~= rule@);
                while e < rule.len() && rule[e] != '='
                    invariant
                        0 <= e <= rule@.len(),
                        forall|j: int| 0 <= j < e ==> rule@[j] != '=',
                        crate::text::find_char(rule@, '=') == e + crate::text::find_char(
                            rule@.subrange(e as int, rule@.len() as int),
                            '=',
                        ),
                    decreases rule.len() - e,
                {
                    assert(rule@.subrange(e as int, rule@.len() as int).drop_first() =~= rule@.subrange(
                        e + 1,
                        rule@.len() as int,
                    ));
                    e += 1;
                }
                if e == rule.len() {
                    assert(!crate::text::has_char(rule@, '='));
                    assert(trimmed(split(v@, ';').take(k + 1).last()) == rule@);
                    proof {
                        lemma_scan_stuck(split(v@, ';'), k + 1);
                    }
                    return Err(PluralRulesError::new("cannot parse an entry"));
                }
                assert(crate::text::has_char(rule@, '='));
                assert(crate::text::find_char(rule@, '=') == e);
                let key = string_of(&rule, 0, e);
                assert(rule@.subrange(0, e as int) =~= rule@.take(e as int));
                if key.eq(&"nplurals".to_owned()) {
                    match parse_usize(&rule, e + 1, rule.len()) {
                        Some(n) => {
                            nplurals = Some(n);
                        },
                        None => {
                            assert(trimmed(split(v@, ';').take(k + 1).last()) == rule@);
                            proof {
                                lemma_scan_stuck(split(v@, ';'), k + 1);
                            }
                            return Err(PluralRulesError::new("cannot parse nplurals"));
                        },
                    }
                } else if key.eq(&"plural".to_owned()) {
                    expr = Some(string_of(&rule, e + 1, rule.len()));
                } else {
                    proof {
                        lemma_scan_stuck(split(v@, ';'), k + 1);
                    }
                    return Err(PluralRulesError::new("unrecognized entry"));
                }
            }
            k += 1;
        }
        assert(split(v@, ';').take(segs@.len() as int) =~= split(v@, ';'));
        match (nplurals, expr) {
            (Some(n), Some(e)) => {
                if n == 0 {
                    Err(PluralRulesError::new("nplurals equals to zero"))
                } else if e.as_str().is_empty() {
                    Err(PluralRulesError::new("plural rule expression is empty"))
                } else {
                    Ok(CatalogPluralRules { nplurals: n, expr: e })
                }
            },
            (None, _) => Err(PluralRulesError::new("nplurals does not exist")),
            (_, None) => Err(PluralRulesError::new("plural rule expression does not exist")),
        }
    }

    /// The text form of the rules, as written in a `Plural-Forms` header.
    pub fn dump(&self) -> (r: String)
        ensures
            r@ == plural_rules_text(self.nplurals, self.expr@),
    {
        let mut r = "nplurals=".to_owned();
        push_decimal(&mut r, self.nplurals);
        push_str(&mut r, "; plural=");
        push_str(&mut r, self.expr.as_str());
        push_str(&mut r, ";");
        r
    }
}

} // verus!
