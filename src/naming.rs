use vstd::prelude::*;

verus! {

/// An ASCII decimal digit.
pub open spec fn is_digit(b: u8) -> bool {
    48 <= b <= 57
}

/// The number written by a string of decimal digits.
pub open spec fn decimal(s: Seq<u8>) -> nat
    decreases s.len(),
{
    if s.len() == 0 {
        0
    } else {
        decimal(s.drop_last()) * 10 + (s.last() - 48) as nat
    }
}

/// The suffix of every segment file's name.
pub open spec fn db_suffix() -> Seq<u8> {
    seq![46u8, 100u8, 98u8]
}

/// The generation that a segment file's name gives: a nonempty run of decimal
/// digits whose value fits a `u64`, followed by `.db`. Any other name is no
/// segment.
pub open spec fn generation_of(name: Seq<u8>) -> Option<u64> {
    let n = name.len() as int;
    let stem = name.subrange(0, n - 3);
    if n > 3 && name.subrange(n - 3, n) == db_suffix() && (forall|i: int|
        0 <= i < n - 3 ==> is_digit(#[trigger] name[i])) && decimal(stem) <= u64::MAX {
        Some(decimal(stem) as u64)
    } else {
        None
    }
}

proof fn lemma_decimal_grows(s: Seq<u8>, i: int, j: int)
    requires
        0 <= i <= j <= s.len(),
        forall|x: int| 0 <= x < s.len() ==> is_digit(#[trigger] s[x]),
    ensures
        decimal(s.subrange(0, i)) <= decimal(s.subrange(0, j)),
    decreases j - i,
{
    if i < j {
        lemma_decimal_grows(s, i, j - 1);
        assert(s.subrange(0, j).drop_last() =~= s.subrange(0, j - 1));
    }
}

/// The generation named by a segment file's name, or `None` for a file that is
/// not a segment.
pub fn segment_generation(name: &Vec<u8>) -> (r: Option<u64>)
    ensures
        r == generation_of(name@),
{
    let n = name.len();
    if n <= 3 || name[n - 3] != 46 || name[n - 2] != 100 || name[n - 1] != 98 {
        proof {
            if n > 3 {
                let t = name@.subrange(n - 3, n as int);
                assert(t == db_suffix() ==> t[0] == 46 && t[1] == 100 && t[2] == 98);
            }
        }
        return None;
    }
    assert(name@.subrange(n - 3, n as int) =~= db_suffix());
    let stem_len: usize = n - 3;
    let mut acc: u64 = 0;
    let mut i: usize = 0;
    while i < stem_len
        invariant
            stem_len == n - 3,
            n == name@.len(),
            i <= stem_len,
            forall|x: int| 0 <= x < i ==> is_digit(#[trigger] name@[x]),
            acc as nat == decimal(name@.subrange(0, i as int)),
        decreases stem_len - i,
    {
        let b = name[i];
        if b < 48 || b > 57 {
            assert(!is_digit(name@[i as int]));
            return None;
        }
        let d: u64 = (b - 48) as u64;
        assert(name@.subrange(0, i + 1).drop_last() =~= name@.subrange(0, i as int));
        if acc > (u64::MAX - d) / 10 {
            proof {
                assert(acc * 10 + d > u64::MAX) by (nonlinear_arith)
                    requires
                        acc > (u64::MAX - d) / 10,
                        d <= 9,
                ;
                if forall|x: int| 0 <= x < n - 3 ==> is_digit(#[trigger] name@[x]) {
                    let stem = name@.subrange(0, n - 3);
                    lemma_decimal_grows(stem, i + 1, stem.len() as int);
                    assert(stem.subrange(0, i + 1) =~= name@.subrange(0, i + 1));
                    assert(stem.subrange(0, stem.len() as int) =~= stem);
                }
            }
            return None;
        }
        assert(acc * 10 + d <= u64::MAX) by (nonlinear_arith)
            requires
                acc <= (u64::MAX - d) / 10,
                d <= 9,
        ;
        acc = acc * 10 + d;
        i = i + 1;
    }
    assert(name@.subrange(0, stem_len as int) == name@.subrange(0, n - 3));
    Some(acc)
}

/// 10 to the power `i`.
pub open spec fn pow10(i: nat) -> nat
    decreases i,
{
    if i == 0 {
        1
    } else {
        10 * pow10((i - 1) as nat)
    }
}

proof fn lemma_decimal_prepend(b: u8, s: Seq<u8>)
    requires
        is_digit(b),
    ensures
        decimal(seq![b] + s) == (b - 48) as nat * pow10(s.len()) + decimal(s),
    decreases s.len(),
{
    if s.len() == 0 {
        assert(seq![b] + s =~= seq![b]);
        assert(seq![b].drop_last() =~= Seq::<u8>::empty());
        assert(decimal(Seq::<u8>::empty()) == 0);
        assert(decimal(seq![b]) == (b - 48) as nat);
        assert(pow10(s.len()) == 1);
        assert(decimal(s) == 0);
    } else {
        let t = s.drop_last();
        assert((seq![b] + s).drop_last() =~= seq![b] + t);
        assert((seq![b] + s).last() == s.last());
        assert(pow10(s.len()) == 10 * pow10(t.len()));
        lemma_decimal_prepend(b, t);
        let x = (b - 48) as nat;
        let p = pow10(t.len());
        assert(decimal(seq![b] + s) == decimal(seq![b] + t) * 10 + (s.last() - 48) as nat);
        assert(decimal(s) == decimal(t) * 10 + (s.last() - 48) as nat);
        assert((x * p + decimal(t)) * 10 == x * (10 * p) + decimal(t) * 10) by (nonlinear_arith);
        assert(decimal(seq![b] + t) == x * p + decimal(t));
        assert(x * pow10(s.len()) == x * (10 * p));
    }
}

/// The file name of segment `generation`: its decimal digits, then `.db`.
pub fn segment_name(generation: u64) -> (r: Vec<u8>)
    ensures
        generation_of(r@) == Some(generation),
{
    let mut digits: Vec<u8> = Vec::new();
    if generation == 0 {
        digits.push(48);
        assert(decimal(digits@) == 0) by {
            assert(digits@.drop_last() =~= Seq::<u8>::empty());
            assert(decimal(Seq::<u8>::empty()) == 0);
            assert(digits@.last() == 48);
        }
    } else {
        let mut cur: u64 = generation;
        assert(pow10(0) == 1 && decimal(digits@) == 0);
        while cur > 0
            invariant
                generation > 0,
                generation as nat == cur as nat * pow10(digits@.len()) + decimal(digits@),
                forall|x: int| 0 <= x < digits@.len() ==> is_digit(#[trigger] digits@[x]),
                cur == 0 ==> digits@.len() > 0,
            decreases cur,
        {
            let d: u64 = cur % 10;
            let b: u8 = 48 + d as u8;
            let ghost before = digits@;
            let ghost p = pow10(before.len());
            digits.insert(0, b);
            assert(digits@ =~= seq![b] + before);
            proof {
                lemma_decimal_prepend(b, before);
                let c2 = cur / 10;
                assert(cur as nat == c2 * 10 + d);
                assert(generation as nat == c2 * (10 * p) + (d * p + decimal(before))) by (nonlinear_arith)
                    requires
                        generation as nat == cur as nat * p + decimal(before),
                        cur as nat == c2 * 10 + d,
                ;
            }
            cur = cur / 10;
        }
    }
    let stem = Ghost(digits@);
    digits.push(46);
    digits.push(100);
    digits.push(98);
    proof {
        let n = digits@.len() as int;
        assert(digits@.subrange(0, n - 3) =~= stem@);
        assert(digits@.subrange(n - 3, n) =~= db_suffix());
        assert(forall|i: int| 0 <= i < n - 3 ==> digits@[i] == stem@[i]);
    }
    digits
}

} // verus!
