use vstd::prelude::*;

use crate::store::strictly_ascending;

verus! {

pub open spec fn is_digit(b: u8) -> bool {
    48 <= b <= 57
}

pub open spec fn all_digits(s: Seq<u8>) -> bool {
    forall|i: int| 0 <= i < s.len() ==> is_digit(#[trigger] s[i])
}

/// The number that the ASCII digits `s` write in base ten.
pub open spec fn digits_value(s: Seq<u8>) -> nat
    decreases s.len(),
{
    if s.len() == 0 {
        0
    } else {
        digits_value(s.drop_last()) * 10 + (s.last() - 48) as nat
    }
}

/// The ASCII digits of `n` in base ten, with no leading zero.
pub open spec fn decimal(n: nat) -> Seq<u8>
    decreases n,
{
    if n < 10 {
        seq![(48 + n) as u8]
    } else {
        decimal(n / 10).push((48 + n % 10) as u8)
    }
}

/// The suffix of every log file's name: `.log`.
pub open spec fn log_suffix() -> Seq<u8> {
    seq![46u8, 108u8, 111u8, 103u8]
}

/// The name of the log file of generation `gen`: `{gen}.log`.
pub open spec fn log_name(gen: u64) -> Seq<u8> {
    decimal(gen as nat) + log_suffix()
}

/// The generation that a file name stands for: digits, then `.log`, where the
/// digits write a number that fits in a `u64`.
pub open spec fn gen_of_name(name: Seq<u8>) -> Option<u64> {
    let stem = name.take(name.len() - 4);
    if name.len() > 4 && name.skip(name.len() - 4) == log_suffix() && all_digits(stem)
        && digits_value(stem) <= u64::MAX {
        Some(digits_value(stem) as u64)
    } else {
        None
    }
}

/// Relies on `u64::to_string` (through `Display`): the decimal digits of
/// `n`, with no sign and no leading zero.
#[verifier::external_body]
fn decimal_string(n: u64) -> (r: String)
    ensures
        r@ == decimal(n as nat).map_values(|b: u8| b as char),
{
    n.to_string()
}

/// The name of the log file of generation `gen`.
pub fn log_path(gen: u64) -> (r: String)
    ensures
        r@ == log_name(gen).map_values(|b: u8| b as char),
        gen_of_name(log_name(gen)) == Some(gen),
{
    proof {
        lemma_name_round_trip(gen);
    }
    let mut name = decimal_string(gen);
    name.append(".log");
    proof {
        reveal_strlit(".log");
        assert(name@ =~= log_name(gen).map_values(|b: u8| b as char));
    }
    name
}

proof fn lemma_decimal(n: nat)
    ensures
        decimal(n).len() >= 1,
        all_digits(decimal(n)),
        digits_value(decimal(n)) == n,
    decreases n,
{
    if n >= 10 {
        lemma_decimal(n / 10);
        let d = decimal(n);
        assert(d.drop_last() =~= decimal(n / 10));
        assert(d.last() == (48 + n % 10) as u8);
        assert((n / 10) * 10 + n % 10 == n);
        assert forall|i: int| 0 <= i < d.len() implies is_digit(#[trigger] d[i]) by {
            if i < d.len() - 1 {
                assert(d[i] == decimal(n / 10)[i]);
            }
        }
    } else {
        assert(decimal(n).drop_last() =~= Seq::<u8>::empty());
        assert(digits_value(Seq::<u8>::empty()) == 0);
    }
}

/// The name of a generation's log file reads back as that generation.
pub proof fn lemma_name_round_trip(gen: u64)
    ensures
        gen_of_name(log_name(gen)) == Some(gen),
{
    lemma_decimal(gen as nat);
    let name = log_name(gen);
    assert(name.take(name.len() - 4) =~= decimal(gen as nat));
    assert(name.skip(name.len() - 4) =~= log_suffix());
}

proof fn lemma_digits_prefix(s: Seq<u8>, n: int)
    requires
        0 <= n <= s.len(),
        all_digits(s),
    ensures
        digits_value(s.take(n)) <= digits_value(s),
    decreases s.len(),
{
    if n < s.len() {
        assert(s.drop_last().take(n) =~= s.take(n));
        assert(is_digit(s[s.len() - 1]));
        lemma_digits_prefix(s.drop_last(), n);
    } else {
        assert(s.take(n) =~= s);
    }
}

/// The generation that the file name `name` stands for, if it is one.
pub fn parse_gen_name(name: &[u8]) -> (r: Option<u64>)
    ensures
        r == gen_of_name(name@),
{
    let n = name.len();
    if n <= 4 {
        return None;
    }
    let stem_len = n - 4;
    if !(name[stem_len] == 46 && name[stem_len + 1] == 108 && name[stem_len + 2] == 111
        && name[stem_len + 3] == 103) {
        proof {
            let t = name@.skip(n - 4);
            if t == log_suffix() {
                assert(t[0] == name@[stem_len as int]);
                assert(t[1] == name@[stem_len + 1]);
                assert(t[2] == name@[stem_len + 2]);
                assert(t[3] == name@[stem_len + 3]);
            }
        }
        return None;
    }
    assert(name@.skip(n - 4) =~= log_suffix());
    let ghost stem = name@.take(stem_len as int);
    let mut acc: u64 = 0;
    let mut i: usize = 0;
    while i < stem_len
        invariant
            stem_len == n - 4,
            n == name@.len(),
            stem == name@.take(stem_len as int),
            i <= stem_len,
            all_digits(stem.take(i as int)),
            acc == digits_value(stem.take(i as int)),
        decreases stem_len - i,
    {
        let b = name[i];
        assert(stem.take(i + 1).drop_last() =~= stem.take(i as int));
        if !(48 <= b && b <= 57) {
            assert(stem[i as int] == b);
            return None;
        }
        assert(all_digits(stem.take(i + 1))) by {
            assert forall|j: int| 0 <= j < i + 1 implies is_digit(#[trigger] stem.take(i + 1)[j]) by {
                if j < i {
                    assert(stem.take(i + 1)[j] == stem.take(i as int)[j]);
                }
            }
        }
        let next = match acc.checked_mul(10) {
            Some(m) => m.checked_add((b - 48) as u64),
            None => None,
        };
        match next {
            Some(v) => acc = v,
            None => {
                proof {
                    if all_digits(stem) {
                        lemma_digits_prefix(stem, i + 1);
                    }
                }
                return None;
            },
        }
        i += 1;
    }
    assert(stem.take(stem_len as int) =~= stem);
    Some(acc)
}

/// The generations that the file names `names` stand for, ascending, each once.
pub fn sorted_gen_list(names: &Vec<Vec<u8>>) -> (r: Vec<u64>)
    ensures
        strictly_ascending(r@),
        forall|g: u64|
            r@.contains(g) <==> exists|i: int|
                0 <= i < names@.len() && gen_of_name(#[trigger] names@[i]@) == Some(g),
{
    let mut out: Vec<u64> = Vec::new();
    let mut i: usize = 0;
    while i < names.len()
        invariant
            i <= names@.len(),
            strictly_ascending(out@),
            forall|g: u64|
                out@.contains(g) <==> exists|j: int|
                    0 <= j < i && gen_of_name(#[trigger] names@[j]@) == Some(g),
        decreases names@.len() - i,
    {
        let parsed = parse_gen_name(names[i].as_slice());
        let ghost before = out@;
        if let Some(g) = parsed {
            insert_sorted(&mut out, g);
        }
        assert forall|g2: u64|
            out@.contains(g2) <==> exists|j: int|
                0 <= j < i + 1 && gen_of_name(#[trigger] names@[j]@) == Some(g2) by {
            if before.contains(g2) {
                let j = choose|j: int| 0 <= j < i && gen_of_name(#[trigger] names@[j]@) == Some(g2);
                assert(0 <= j < i + 1);
            }
            if gen_of_name(names@[i as int]@) == Some(g2) {
                assert(0 <= i < i + 1);
            }
        }
        i += 1;
    }
    out
}

/// Puts `g` in its place in the ascending `v`, unless it is there already.
fn insert_sorted(v: &mut Vec<u64>, g: u64)
    requires
        strictly_ascending(old(v)@),
    ensures
        strictly_ascending(final(v)@),
        forall|x: u64| final(v)@.contains(x) <==> (old(v)@.contains(x) || x == g),
{
    let ghost start = v@;
    let mut i: usize = 0;
    while i < v.len() && v[i] < g
        invariant
            v@ == start,
            start == old(v)@,
            i <= v@.len(),
            forall|j: int| 0 <= j < i ==> v@[j] < g,
        decreases v@.len() - i,
    {
        i += 1;
    }
    if i < v.len() && v[i] == g {
        assert(v@[i as int] == g);
        assert(v@.contains(g));
        assert forall|x: u64| v@.contains(x) <==> (old(v)@.contains(x) || x == g) by {}
        return;
    }
    let ghost before = v@;
    assert(before == old(v)@);
    v.insert(i, g);
    assert forall|x: u64| #[trigger] v@.contains(x) <==> (old(v)@.contains(x) || x == g) by {
        if before.contains(x) {
            let j = choose|j: int| 0 <= j < before.len() && before[j] == x;
            if j < i {
                assert(v@[j] == x);
            } else {
                assert(v@[j + 1] == x);
            }
        }
        if v@.contains(x) {
            let j = choose|j: int| 0 <= j < v@.len() && v@[j] == x;
            if j < i {
                assert(before[j] == x);
            } else if j > i {
                assert(before[j - 1] == x);
            }
        }
        if x == g {
            assert(v@[i as int] == g);
        }
    }
}

} // verus!
