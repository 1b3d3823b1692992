//! Run-length compression of a byte stream.
//!
//! The stream is cut into maximal runs of one repeated byte, each run capped
//! at 255 so its length fits one byte, and every run becomes a (value, count)
//! pair; the byte form interleaves values and counts. This stage is a pure
//! byte-level transform, independent of what the bytes encode.

use vstd::prelude::*;
use vstd::string::StringExecFns;

verus! {

/// The length of the run of equal bytes at the head of `s`, uncapped.
pub open spec fn first_run(s: Seq<u8>) -> int
    decreases s.len(),
{
    if s.len() == 0 {
        0
    } else if s.len() == 1 {
        1
    } else if s[1] == s[0] {
        1 + first_run(s.drop_first())
    } else {
        1
    }
}

/// The head run's length as it is emitted: capped at 255.
pub open spec fn capped_run(s: Seq<u8>) -> int {
    if first_run(s) > 255 {
        255
    } else {
        first_run(s)
    }
}

/// A head run covers at least one byte and no more than the stream.
pub proof fn lemma_first_run_bounds(s: Seq<u8>)
    requires
        s.len() > 0,
    ensures
        1 <= first_run(s) <= s.len(),
    decreases s.len(),
{
    if s.len() > 1 && s[1] == s[0] {
        lemma_first_run_bounds(s.drop_first());
    }
}

/// The head run is exactly the longest prefix of bytes equal to the first.
pub proof fn lemma_first_run_characterization(s: Seq<u8>, n: int)
    requires
        0 < n <= s.len(),
        forall|k: int| 0 <= k < n ==> #[trigger] s[k] == s[0],
        n == s.len() || s[n] != s[0],
    ensures
        first_run(s) == n,
    decreases n,
{
    if n == 1 {
    } else {
        assert(s[1] == s[0]);
        let rest = s.drop_first();
        assert forall|k: int| 0 <= k < n - 1 implies #[trigger] rest[k] == rest[0] by {
            assert(rest[k] == s[k + 1]);
        }
        assert(n - 1 == rest.len() || rest[n - 1] != rest[0]);
        lemma_first_run_characterization(rest, n - 1);
    }
}

/// A prefix of equal bytes keeps the head run at least that long.
pub proof fn lemma_first_run_at_least(s: Seq<u8>, n: int)
    requires
        0 < n <= s.len(),
        forall|k: int| 0 <= k < n ==> #[trigger] s[k] == s[0],
    ensures
        first_run(s) >= n,
    decreases n,
{
    if n > 1 {
        assert(s[1] == s[0]);
        let rest = s.drop_first();
        assert forall|k: int| 0 <= k < n - 1 implies #[trigger] rest[k] == rest[0] by {
            assert(rest[k] == s[k + 1]);
        }
        lemma_first_run_at_least(rest, n - 1);
    } else {
        lemma_first_run_bounds(s);
    }
}

/// One (value, count) pair of the run-length encoding.
#[derive(Debug, Clone, Copy, PartialEq, Eq, Structural)]
pub struct RleValue {
    pub value: u8,
    pub count: u8,
}

/// The run-length pairs of a byte stream, head run first.
pub open spec fn rle_spec(s: Seq<u8>) -> Seq<RleValue>
    decreases s.len(),
{
    if s.len() == 0 {
        Seq::empty()
    } else {
        proof {
            lemma_first_run_bounds(s);
        }
        let n = capped_run(s);
        seq![RleValue { value: s[0], count: n as u8 }] + rle_spec(s.skip(n))
    }
}

/// The byte form of the pairs: value then count, interleaved.
pub open spec fn pairs_to_bytes(pairs: Seq<RleValue>) -> Seq<u8> {
    Seq::new(
        2 * pairs.len(),
        |i: int|
            if i % 2 == 0 {
                pairs[i / 2].value
            } else {
                pairs[i / 2].count
            },
    )
}

/// The run-length encoding of a byte stream, as bytes.
pub open spec fn rle_bytes(s: Seq<u8>) -> Seq<u8> {
    pairs_to_bytes(rle_spec(s))
}

/// Compresses a snapshot of its input byte stream.
#[derive(Debug, Clone, PartialEq, Eq)]
pub struct RleEncoder {
    pub input: Vec<u8>,
}

impl RleEncoder {
    pub fn new(input: &Vec<u8>) -> (e: RleEncoder)
        ensures
            e.input@ == input@,
    {
        RleEncoder { input: copy_bytes(input) }
    }

    /// The run-length pairs of the held input.
    #[verifier::loop_isolation(false)]
    pub fn encode(&self) -> (pairs: Vec<RleValue>)
        ensures
            pairs@ == rle_spec(self.input@),
    {
        let mut pairs: Vec<RleValue> = Vec::new();
        let n = self.input.len();
        proof {
            assert(self.input@.skip(0) =~= self.input@);
            assert(Seq::<RleValue>::empty() + rle_spec(self.input@) =~= rle_spec(self.input@));
        }
        let mut i: usize = 0;
        while i < n
            invariant
                i <= n,
                pairs@ + rle_spec(self.input@.skip(i as int)) == rle_spec(self.input@),
            decreases n - i,
        {
            let value = self.input[i];
            let mut j: usize = i + 1;
            while j < n && j - i < 255 && self.input[j] == value
                invariant
                    i < j <= n,
                    j - i <= 255,
                    forall|k: int| i <= k < j ==> #[trigger] self.input@[k] == value,
                decreases n - j,
            {
                j += 1;
            }
            let count: u8 = (j - i) as u8;
            let ghost rest = self.input@.skip(i as int);
            proof {
                assert forall|k: int| 0 <= k < j - i implies #[trigger] rest[k] == rest[0] by {
                    assert(rest[k] == self.input@[i + k]);
                }
                if j - i == 255 {
                    lemma_first_run_at_least(rest, 255);
                } else {
                    lemma_first_run_characterization(rest, j - i as int);
                }
                assert(capped_run(rest) == j - i);
                lemma_first_run_bounds(rest);
                assert(rle_spec(rest) == seq![RleValue { value: rest[0], count: (j - i) as u8 }]
                    + rle_spec(rest.skip(j - i as int)));
                assert(rest[0] == value);
                assert(rest.skip(j - i as int) =~= self.input@.skip(j as int));
                assert(pairs@.push(RleValue { value, count }) + rle_spec(self.input@.skip(j as int))
                    =~= pairs@ + rle_spec(rest));
            }
            pairs.push(RleValue { value, count });
            i = j;
        }
        proof {
            assert(self.input@.skip(n as int) =~= Seq::<u8>::empty());
            assert(rle_spec(Seq::<u8>::empty()) =~= Seq::<RleValue>::empty());
            assert(pairs@ =~= pairs@ + rle_spec(self.input@.skip(n as int)));
        }
        pairs
    }
}

/// A digit as a character.
pub open spec fn digit_char(d: nat) -> char {
    if d == 0 {
        '0'
    } else if d == 1 {
        '1'
    } else if d == 2 {
        '2'
    } else if d == 3 {
        '3'
    } else if d == 4 {
        '4'
    } else if d == 5 {
        '5'
    } else if d == 6 {
        '6'
    } else if d == 7 {
        '7'
    } else if d == 8 {
        '8'
    } else {
        '9'
    }
}

/// The decimal digits of a number, most significant first.
pub open spec fn decimal_digits(n: nat) -> Seq<char>
    decreases n,
{
    if n < 10 {
        seq![digit_char(n)]
    } else {
        decimal_digits(n / 10) + seq![digit_char(n % 10)]
    }
}

/// One decimal digit as a string slice.
fn digit_str(d: u8) -> (s: &'static str)
    requires
        d < 10,
    ensures
        s@ == seq![digit_char(d as nat)],
{
    if d == 0 {
        proof {
            reveal_strlit("0");
        }
        "0"
    } else if d == 1 {
        proof {
            reveal_strlit("1");
        }
        "1"
    } else if d == 2 {
        proof {
            reveal_strlit("2");
        }
        "2"
    } else if d == 3 {
        proof {
            reveal_strlit("3");
        }
        "3"
    } else if d == 4 {
        proof {
            reveal_strlit("4");
        }
        "4"
    } else if d == 5 {
        proof {
            reveal_strlit("5");
        }
        "5"
    } else if d == 6 {
        proof {
            reveal_strlit("6");
        }
        "6"
    } else if d == 7 {
        proof {
            reveal_strlit("7");
        }
        "7"
    } else if d == 8 {
        proof {
            reveal_strlit("8");
        }
        "8"
    } else {
        proof {
            reveal_strlit("9");
        }
        "9"
    }
}

/// A byte's value in decimal.
fn u8_decimal(n: u8) -> (s: String)
    ensures
        s@ == decimal_digits(n as nat),
{
    let mut s = String::new();
    if n >= 100 {
        s.append(digit_str(n / 100));
    }
    if n >= 10 {
        s.append(digit_str((n / 10) % 10));
    }
    s.append(digit_str(n % 10));
    proof {
        if n >= 100 {
            assert((n as nat / 10) / 10 == n as nat / 100) by {
                vstd::arithmetic::div_mod::lemma_div_denominator(n as int, 10, 10);
            }
            assert(decimal_digits(n as nat / 10) == decimal_digits(n as nat / 100) + seq![
                digit_char((n as nat / 10) % 10),
            ]);
            assert(decimal_digits(n as nat / 100) == seq![digit_char(n as nat / 100)]);
            assert(s@ =~= decimal_digits(n as nat));
        } else if n >= 10 {
            assert(n as nat / 10 < 10);
            assert((n as nat / 10) % 10 == n as nat / 10);
            assert(decimal_digits(n as nat / 10) == seq![digit_char(n as nat / 10)]);
            assert(s@ =~= decimal_digits(n as nat));
        } else {
            assert(n as nat % 10 == n as nat);
            assert(s@ =~= decimal_digits(n as nat));
        }
    }
    s
}

impl RleValue {
    /// The pair rendered as text: the count's decimal digits, then the
    /// value's.
    pub fn to_string(&self) -> (s: String)
        ensures
            s@ == decimal_digits(self.count as nat) + decimal_digits(self.value as nat),
    {
        let mut s = u8_decimal(self.count);
        let v = u8_decimal(self.value);
        s.append(v.as_str());
        s
    }
}

/// Copy a byte vector.
#[verifier::loop_isolation(false)]
fn copy_bytes(input: &Vec<u8>) -> (out: Vec<u8>)
    ensures
        out@ == input@,
{
    let mut out: Vec<u8> = Vec::new();
    let mut i: usize = 0;
    while i < input.len()
        invariant
            i <= input.len(),
            out@ == input@.take(i as int),
        decreases input.len() - i,
    {
        proof {
            assert(input@.take(i + 1) =~= input@.take(i as int).push(input@[i as int]));
        }
        out.push(input[i]);
        i += 1;
    }
    proof {
        assert(input@.take(input@.len() as int) =~= input@);
    }
    out
}

/// Run-length encode a byte stream to interleaved (value, count) bytes. The
/// output holds two bytes for every run.
#[verifier::loop_isolation(false)]
pub fn encode(data: &Vec<u8>) -> (out: Vec<u8>)
    ensures
        out@ == rle_bytes(data@),
        out@.len() == 2 * rle_spec(data@).len(),
{
    let encoder = RleEncoder::new(data);
    let pairs = encoder.encode();
    let mut out: Vec<u8> = Vec::new();
    let mut i: usize = 0;
    while i < pairs.len()
        invariant
            i <= pairs.len(),
            out@ == pairs_to_bytes(pairs@.take(i as int)),
        decreases pairs.len() - i,
    {
        out.push(pairs[i].value);
        out.push(pairs[i].count);
        i += 1;
        proof {
            assert(out@ =~= pairs_to_bytes(pairs@.take(i as int)));
        }
    }
    proof {
        assert(pairs@.take(pairs@.len() as int) =~= pairs@);
    }
    out
}

} // verus!
