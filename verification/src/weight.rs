//! A weighted payload: the `"weight:text"` dialect of the codec contract.
//!
//! The raw form is a decimal weight, one `':'`, and the text; parsing
//! rejects anything else, and serializing writes the weight back in
//! canonical decimal.

use vstd::prelude::*;
use vstd::string::StrSliceExecFns;
use vstd::string::StringExecFns;

use crate::error::SocarelError;
use crate::error::SocarelErrorType;
use crate::node::NodeContent;

verus! {

/// Whether a character is a decimal digit.
pub open spec fn is_digit(c: char) -> bool {
    ||| c == '0'
    ||| c == '1'
    ||| c == '2'
    ||| c == '3'
    ||| c == '4'
    ||| c == '5'
    ||| c == '6'
    ||| c == '7'
    ||| c == '8'
    ||| c == '9'
}

/// The value of a decimal digit.
pub open spec fn digit_val(c: char) -> nat {
    if c == '0' {
        0
    } else if c == '1' {
        1
    } else if c == '2' {
        2
    } else if c == '3' {
        3
    } else if c == '4' {
        4
    } else if c == '5' {
        5
    } else if c == '6' {
        6
    } else if c == '7' {
        7
    } else if c == '8' {
        8
    } else {
        9
    }
}

/// The digit character of a value below ten.
pub open spec fn digit_char(d: nat) -> char {
    if d == 0 {
        '0'
    } else if d == 1 {
        '1'
    } else if d == 2 {
        '2'
    } else if d == 3 {
        '3'
    } else if d == 4 {
        '4'
    } else if d == 5 {
        '5'
    } else if d == 6 {
        '6'
    } else if d == 7 {
        '7'
    } else if d == 8 {
        '8'
    } else {
        '9'
    }
}

/// The number a digit string denotes in decimal.
pub open spec fn dec_val(s: Seq<char>) -> nat
    decreases s.len(),
{
    if s.len() == 0 {
        0
    } else {
        dec_val(s.drop_last()) * 10 + digit_val(s.last())
    }
}

/// The canonical decimal digit string of a number.
pub open spec fn dec_str(n: nat) -> Seq<char>
    decreases n,
{
    if n < 10 {
        seq![digit_char(n)]
    } else {
        dec_str(n / 10).push(digit_char(n % 10))
    }
}

/// Whether every character of the string is a decimal digit.
pub open spec fn all_digits(s: Seq<char>) -> bool {
    forall|i: int| 0 <= i < s.len() ==> is_digit(#[trigger] s[i])
}

/// Whether the string holds no `':'`.
pub open spec fn colon_free(s: Seq<char>) -> bool {
    forall|i: int| 0 <= i < s.len() ==> (#[trigger] s[i]) != ':'
}

/// Whether position `i` holds the one `':'` of the string.
pub open spec fn splits_at(raw: Seq<char>, i: int) -> bool {
    &&& 0 <= i < raw.len()
    &&& raw[i] == ':'
    &&& colon_free(raw.take(i))
    &&& colon_free(raw.skip(i + 1))
}

/// The weight denoted by a well-formed weighted payload string.
pub open spec fn parsed_weight(raw: Seq<char>) -> nat {
    let i = choose|i: int| weight_parses_at(raw, i);
    dec_val(raw.take(i))
}

/// Whether the string is a well-formed weighted payload when split at `i`:
/// one `':'` there, at least one digit before it, nothing but digits
/// before it, and a weight that fits in 32 bits.
pub open spec fn weight_parses_at(raw: Seq<char>, i: int) -> bool {
    &&& splits_at(raw, i)
    &&& i >= 1
    &&& all_digits(raw.take(i))
    &&& dec_val(raw.take(i)) <= u32::MAX
}

/// A string can be split at one position at most.
pub proof fn lemma_splits_at_unique(raw: Seq<char>, i: int, j: int)
    requires
        splits_at(raw, i),
        splits_at(raw, j),
    ensures
        i == j,
{
    if i < j {
        assert(raw.take(j)[i] == ':');
    } else if j < i {
        assert(raw.take(i)[j] == ':');
    }
}

/// A longer digit prefix never denotes a smaller number.
proof fn lemma_dec_val_prefix(s: Seq<char>, i: int)
    requires
        0 <= i <= s.len(),
    ensures
        dec_val(s.take(i)) <= dec_val(s),
    decreases s.len() - i,
{
    if i < s.len() {
        lemma_dec_val_prefix(s.drop_last(), i);
        assert(s.drop_last().take(i) =~= s.take(i));
    } else {
        assert(s.take(i) =~= s);
    }
}

/// The canonical decimal string of a number is nonempty, holds digits
/// only, and denotes the number back.
pub proof fn lemma_dec_str_props(n: nat)
    ensures
        dec_str(n).len() >= 1,
        all_digits(dec_str(n)),
        dec_val(dec_str(n)) == n,
    decreases n,
{
    if n < 10 {
        let s = seq![digit_char(n)];
        assert(s.drop_last() =~= Seq::<char>::empty());
        assert(s.last() == digit_char(n));
        assert(dec_val(Seq::<char>::empty()) == 0);
        assert(dec_val(s) == digit_val(digit_char(n)));
    } else {
        lemma_dec_str_props(n / 10);
        let s = dec_str(n / 10).push(digit_char(n % 10));
        assert(s.drop_last() =~= dec_str(n / 10));
        assert(s.last() == digit_char(n % 10));
        assert(dec_val(s) == (n / 10) * 10 + (n % 10));
        assert forall|i: int| 0 <= i < s.len() implies is_digit(#[trigger] s[i]) by {
            if i < s.len() - 1 {
                assert(s[i] == dec_str(n / 10)[i]);
            }
        }
    }
}

/// A weighted payload: a text and a 32-bit weight, parsed from and
/// serialized to the `"weight:text"` form.
#[derive(Debug)]
pub struct WeightNode {
    content: String,
    weight: u32,
}

impl WeightNode {
    /// The weight of this payload.
    pub closed spec fn spec_weight(&self) -> u32 {
        self.weight
    }

    /// Get the weight of this payload.
    pub fn get_weight(&self) -> (r: u32)
        ensures
            r == self.spec_weight(),
    {
        self.weight
    }

    /// The digit character of a value below ten, as a string slice.
    fn digit_str(d: u32) -> (r: &'static str)
        requires
            d < 10,
        ensures
            r@ =~= seq![digit_char(d as nat)],
    {
        proof {
            reveal_strlit("0");
            reveal_strlit("1");
            reveal_strlit("2");
            reveal_strlit("3");
            reveal_strlit("4");
            reveal_strlit("5");
            reveal_strlit("6");
            reveal_strlit("7");
            reveal_strlit("8");
            reveal_strlit("9");
        }
        if d == 0 {
            "0"
        } else if d == 1 {
            "1"
        } else if d == 2 {
            "2"
        } else if d == 3 {
            "3"
        } else if d == 4 {
            "4"
        } else if d == 5 {
            "5"
        } else if d == 6 {
            "6"
        } else if d == 7 {
            "7"
        } else if d == 8 {
            "8"
        } else {
            "9"
        }
    }

    /// Append the canonical decimal digits of `n` to the string.
    fn push_dec(n: u32, out: &mut String)
        ensures
            final(out)@ == old(out)@ + dec_str(n as nat),
        decreases n,
    {
        if n >= 10 {
            Self::push_dec(n / 10, out);
        }
        let d = Self::digit_str(n % 10);
        out.append(d);
        proof {
            if n >= 10 {
                assert(old(out)@ + dec_str((n / 10) as nat) + seq![digit_char((n % 10) as nat)]
                    =~= old(out)@ + dec_str(n as nat));
            } else {
                assert(old(out)@ + seq![digit_char(n as nat)] =~= old(out)@ + dec_str(n as nat));
            }
        }
    }
}

/// The codec law of the weighted payload, for every payload whose text
/// holds no `':'`: its serialized form parses again, and the parse gives
/// the same text back. A text with a `':'` in it serializes to a string
/// with two separators, which the parser rejects, so such payloads are
/// left out here.
pub proof fn lemma_weight_codec_round_trip(x: WeightNode)
    requires
        colon_free(x.spec_val()),
    ensures
        WeightNode::parses(x.spec_gen()),
        WeightNode::parsed_val(x.spec_gen()) == x.spec_val(),
        parsed_weight(x.spec_gen()) == x.spec_weight(),
{
    let w = x.spec_weight() as nat;
    let g = x.spec_gen();
    let l = dec_str(w).len() as int;
    lemma_dec_str_props(w);
    assert(g.take(l) =~= dec_str(w));
    assert(g.skip(l + 1) =~= x.spec_val());
    assert(g[l] == ':');
    assert forall|i: int| 0 <= i < g.take(l).len() implies (#[trigger] g.take(l)[i]) != ':' by {
        assert(is_digit(dec_str(w)[i]));
    }
    assert(weight_parses_at(g, l));
    let j = choose|j: int| weight_parses_at(g, j);
    lemma_splits_at_unique(g, j, l);
}

impl NodeContent for WeightNode {
    closed spec fn parses(raw: Seq<char>) -> bool {
        exists|i: int| weight_parses_at(raw, i)
    }

    closed spec fn parsed_val(raw: Seq<char>) -> Seq<char> {
        let i = choose|i: int| weight_parses_at(raw, i);
        raw.skip(i + 1)
    }

    closed spec fn spec_val(&self) -> Seq<char> {
        self.content@
    }

    closed spec fn spec_gen(&self) -> Seq<char> {
        dec_str(self.weight as nat) + seq![':'] + self.content@
    }

    fn new(content: &str) -> (r: Result<Self, SocarelError>)
        ensures
            r matches Ok(x) ==> x.spec_weight() == parsed_weight(content@),
            r matches Err(e) ==> e.is_exactly("Could not parse content"@, 1, SocarelErrorType::Node),
    {
        let n = content.unicode_len();
        proof {
            reveal_strlit(":");
        }
        // Find the colon; a second one, or none, rejects the string.
        let mut colon: Option<usize> = None;
        let mut i: usize = 0;
        while i < n
            invariant
                n == content@.len(),
                i <= n,
                match colon {
                    Some(ci) => ci < i && content@[ci as int] == ':' && colon_free(content@.take(ci as int))
                        && colon_free(content@.take(i as int).skip(ci as int + 1)),
                    None => colon_free(content@.take(i as int)),
                },
            decreases n - i,
        {
            let c = content.get_char(i);
            if c == ':' {
                if colon.is_some() {
                    // A second separator: the string is rejected. No split
                    // position can avoid both colons.
                    proof {
                        let ci = colon.unwrap() as int;
                        assert(content@[ci] == ':' && content@[i as int] == ':');
                        assert forall|k: int| !weight_parses_at(content@, k) by {
                            if splits_at(content@, k) {
                                if k < ci {
                                    assert(content@.skip(k + 1)[ci - k - 1] == ':');
                                } else if k == ci {
                                    assert(content@.skip(k + 1)[i - k - 1] == ':');
                                } else {
                                    assert(content@.take(k)[ci] == ':');
                                }
                            }
                        }
                    }
                    return Err(
                        SocarelError::new("Could not parse content", 1, SocarelErrorType::Node),
                    );
                }
                colon = Some(i);
                proof {
                    assert(content@.take(i as int + 1).skip(i as int + 1) =~= Seq::<char>::empty());
                }
            } else {
                proof {
                    match colon {
                        Some(ci) => {
                            assert(content@.take(i as int + 1).skip(ci as int + 1) =~= content@.take(
                                i as int,
                            ).skip(ci as int + 1).push(c));
                        },
                        None => {
                            assert(content@.take(i as int + 1) =~= content@.take(i as int).push(c));
                        },
                    }
                }
            }
            i += 1;
        }
        proof {
            assert(content@.take(n as int) =~= content@);
        }
        match colon {
            None => {
                proof {
                    assert(colon_free(content@));
                    assert forall|k: int| !weight_parses_at(content@, k) by {
                        if splits_at(content@, k) {
                            assert(content@[k] == ':');
                        }
                    }
                }
                Err(SocarelError::new("Could not parse content", 1, SocarelErrorType::Node))
            },
            Some(ci) => {
                proof {
                    assert(colon_free(content@.skip(ci as int + 1)));
                    assert(splits_at(content@, ci as int));
                }
                if ci == 0 {
                    proof {
                        assert forall|k: int| !weight_parses_at(content@, k) by {
                            if splits_at(content@, k) {
                                lemma_splits_at_unique(content@, k, ci as int);
                            }
                        }
                    }
                    return Err(
                        SocarelError::new("Could not parse content", 1, SocarelErrorType::Node),
                    );
                }
                // Read the weight digits before the colon.
                let mut acc: u64 = 0;
                let mut k: usize = 0;
                while k < ci
                    invariant
                        n == content@.len(),
                        0 < ci < n,
                        k <= ci,
                        splits_at(content@, ci as int),
                        all_digits(content@.take(ci as int).take(k as int)),
                        acc == dec_val(content@.take(ci as int).take(k as int)),
                        acc <= u32::MAX,
                    decreases ci - k,
                {
                    let c = content.get_char(k);
                    let d: u64 = if c == '0' {
                        0
                    } else if c == '1' {
                        1
                    } else if c == '2' {
                        2
                    } else if c == '3' {
                        3
                    } else if c == '4' {
                        4
                    } else if c == '5' {
                        5
                    } else if c == '6' {
                        6
                    } else if c == '7' {
                        7
                    } else if c == '8' {
                        8
                    } else if c == '9' {
                        9
                    } else {
                        // A non-digit before the colon rejects the string.
                        proof {
                            assert(content@.take(ci as int)[k as int] == c);
                            assert forall|j: int| !weight_parses_at(content@, j) by {
                                if splits_at(content@, j) {
                                    lemma_splits_at_unique(content@, j, ci as int);
                                }
                            }
                        }
                        return Err(
                            SocarelError::new("Could not parse content", 1, SocarelErrorType::Node),
                        );
                    };
                    proof {
                        assert(content@.take(ci as int).take(k as int + 1) =~= content@.take(
                            ci as int,
                        ).take(k as int).push(c));
                        assert(content@.take(ci as int).take(k as int + 1).drop_last() =~= content@.take(
                            ci as int,
                        ).take(k as int));
                        assert(content@.take(ci as int).take(k as int + 1).last() == c);
                        assert(is_digit(c) && digit_val(c) == d);
                        assert(dec_val(content@.take(ci as int).take(k as int + 1)) == dec_val(
                            content@.take(ci as int).take(k as int),
                        ) * 10 + digit_val(c));
                    }
                    acc = acc * 10 + d;
                    if acc > 0xffff_ffff {
                        // The weight does not fit in 32 bits.
                        proof {
                            lemma_dec_val_prefix(content@.take(ci as int), k as int + 1);
                            assert forall|j: int| !weight_parses_at(content@, j) by {
                                if splits_at(content@, j) {
                                    lemma_splits_at_unique(content@, j, ci as int);
                                }
                            }
                        }
                        return Err(
                            SocarelError::new("Could not parse content", 1, SocarelErrorType::Node),
                        );
                    }
                    k += 1;
                }
                proof {
                    assert(content@.take(ci as int).take(ci as int) =~= content@.take(ci as int));
                    assert(weight_parses_at(content@, ci as int));
                    assert(Self::parses(content@));
                }
                let text: String = content.substring_char(ci + 1, n).to_owned();
                let node = WeightNode { content: text, weight: acc as u32 };
                proof {
                    let w = choose|j: int| weight_parses_at(content@, j);
                    lemma_splits_at_unique(content@, w, ci as int);
                    assert(content@.subrange(ci as int + 1, n as int) =~= content@.skip(ci as int + 1));
                }
                Ok(node)
            },
        }
    }

    fn get_val(&self) -> (r: &str) {
        self.content.as_str()
    }

    fn gen_content(&self) -> (r: String) {
        let mut out = String::new();
        Self::push_dec(self.weight, &mut out);
        proof {
            reveal_strlit(":");
            assert(":"@ =~= seq![':']);
        }
        out.append(":");
        out.append(self.content.as_str());
        proof {
            assert(Seq::<char>::empty() + dec_str(self.weight as nat) + ":"@ + self.content@
                =~= dec_str(self.weight as nat) + seq![':'] + self.content@);
        }
        out
    }
}

} // verus!
