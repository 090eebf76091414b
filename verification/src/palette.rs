use vstd::prelude::*;
use crate::color::{
    Color, hex6_valid, hex6_color, color_hex, parse_hex_color, to_hex, hex_char, is_hex_digit,
    lemma_hex_char_val, lemma_color_hex_roundtrip,
};
use crate::text::{split_seq, split_str, lemma_first_sep_at};

verus! {

/// A complete palette: background, foreground and seven accent hues, in
/// that slot order, always fully populated.
#[derive(Clone, Copy, Debug, PartialEq)]
pub struct Palette {
    pub colors: [Color; 9],
}

/// A palette under construction: the same nine slots, each either fixed
/// by the user or still to be synthesized.
#[derive(Clone, Copy, Debug)]
pub struct PaletteOption {
    pub colors: [Option<Color>; 9],
}

impl PaletteOption {
    /// The all-unset palette.
    pub fn new() -> (r: PaletteOption)
        ensures
            r.colors@ == Seq::new(9, |i: int| None::<Color>),
    {
        let r = PaletteOption { colors: [None, None, None, None, None, None, None, None, None] };
        proof {
            assert(r.colors@ =~= Seq::new(9, |i: int| None::<Color>));
        }
        r
    }
}

/// The token that leaves a slot unset.
pub open spec fn is_unset_tok(t: Seq<char>) -> bool {
    t.len() == 1 && t[0] == '_'
}

/// The token that stops parsing and leaves all remaining slots unset.
pub open spec fn is_stop_tok(t: Seq<char>) -> bool {
    t.len() == 1 && t[0] == '?'
}

/// What parsing a palette code comes to: rejected with a reason and its
/// place, or the nine parsed slots.
pub enum ParseOutcome {
    TooMany(int),
    BadToken(int),
    WrongCount(int),
    Parsed(Seq<Option<Color>>),
}

/// One parsing step per token, from token i on: an unset token skips its
/// slot, a stop token ends parsing at once with the slots seen so far, a
/// color literal fills its slot, anything else is rejected with its
/// index. A code without a stop token must have exactly nine tokens.
pub open spec fn parse_from(toks: Seq<Seq<char>>, i: int, acc: Seq<Option<Color>>) -> ParseOutcome
    decreases toks.len() - i,
{
    if i < 0 || i >= toks.len() {
        if toks.len() == 9 {
            ParseOutcome::Parsed(acc)
        } else {
            ParseOutcome::WrongCount(toks.len() as int)
        }
    } else if is_unset_tok(toks[i]) {
        parse_from(toks, i + 1, acc)
    } else if is_stop_tok(toks[i]) {
        ParseOutcome::Parsed(acc)
    } else if hex6_valid(toks[i]) {
        parse_from(toks, i + 1, acc.update(i, Some(hex6_color(toks[i]))))
    } else {
        ParseOutcome::BadToken(i)
    }
}

/// What parsing the whole code comes to: more than nine tokens are
/// rejected outright, otherwise the tokens are scanned in order.
pub open spec fn spec_parse(s: Seq<char>) -> ParseOutcome {
    let toks = split_seq(s, '-');
    if toks.len() > 9 {
        ParseOutcome::TooMany(toks.len() as int)
    } else {
        parse_from(toks, 0, Seq::new(9, |i: int| None))
    }
}

/// A rejected palette code: the reason, and where it went wrong.
#[derive(Debug)]
pub enum ParseError {
    TooManyColors { count: usize },
    WrongColorCount { count: usize },
    BadColorToken { index: usize, token: String },
}

/// The decimal digits of n.
pub open spec fn dec_str(n: nat) -> Seq<char>
    decreases n,
{
    if n < 10 {
        seq![hex_char(n as int)]
    } else {
        dec_str(n / 10) + seq![hex_char((n % 10) as int)]
    }
}

/// Writes a number in decimal.
pub fn format_usize(n: usize) -> (s: String)
    ensures
        s@ == dec_str(n as nat),
    decreases n,
{
    proof {
        reveal_strlit("0123456789abcdef");
    }
    let digits = "0123456789abcdef";
    if n < 10 {
        let s = String::from_str(digits.substring_ascii(n, n + 1));
        proof {
            assert(s@ =~= dec_str(n as nat));
        }
        s
    } else {
        let mut s = format_usize(n / 10);
        s.append(digits.substring_ascii(n % 10, n % 10 + 1));
        proof {
            assert(s@ =~= dec_str(n as nat));
        }
        s
    }
}

impl ParseError {
    /// The error in words, naming the offending place.
    pub fn describe(&self) -> (s: String)
        ensures
            self matches ParseError::TooManyColors { count } ==> s@ == "too many colors: "@
                + dec_str(count as nat),
            self matches ParseError::WrongColorCount { count } ==> s@
                == "wrong number of colors: "@ + dec_str(count as nat),
            self matches ParseError::BadColorToken { index, token } ==> s@ == dec_str(index as nat)
                + "th color in palette is wrong format: "@ + token@,
    {
        match self {
            ParseError::TooManyColors { count } => {
                let mut s = String::from_str("too many colors: ");
                s.append(format_usize(*count).as_str());
                s
            },
            ParseError::WrongColorCount { count } => {
                let mut s = String::from_str("wrong number of colors: ");
                s.append(format_usize(*count).as_str());
                s
            },
            ParseError::BadColorToken { index, token } => {
                let mut s = format_usize(*index);
                s.append("th color in palette is wrong format: ");
                s.append(token.as_str());
                s
            },
        }
    }
}

impl PaletteOption {
    /// Parses a `-`-separated palette code of up to nine tokens, each a
    /// six-digit color literal, `_` for an unset slot, or `?` to leave
    /// all remaining slots unset. Returns exactly what `spec_parse` says.
    pub fn from_str(s: &str) -> (r: Result<PaletteOption, ParseError>)
        ensures
            match spec_parse(s@) {
                ParseOutcome::TooMany(n) => r matches Err(ParseError::TooManyColors { count })
                    && count == n,
                ParseOutcome::WrongCount(n) => r matches Err(
                    ParseError::WrongColorCount { count },
                ) && count == n,
                ParseOutcome::BadToken(i) => r matches Err(
                    ParseError::BadColorToken { index, token },
                ) && index == i && token@ == split_seq(s@, '-')[i],
                ParseOutcome::Parsed(acc) => r matches Ok(po) && po.colors@ == acc,
            },
    {
        let toks = split_str(s, '-');
        let ghost tseq = split_seq(s@, '-');
        let count = toks.len();
        if count > 9 {
            return Err(ParseError::TooManyColors { count });
        }
        let mut po = PaletteOption::new();
        proof {
            assert(po.colors@ == Seq::new(9, |i: int| None::<Color>));
        }
        for i in 0..count
            invariant
                tseq == split_seq(s@, '-'),
                count == toks@.len() == tseq.len() <= 9,
                forall|k: int| 0 <= k < count ==> (#[trigger] toks@[k])@ == tseq[k],
                po.colors@.len() == 9,
                spec_parse(s@) == parse_from(tseq, i as int, po.colors@),
        {
            let ts = toks[i].as_str();
            let n1 = ts.unicode_len();
            if n1 == 1 && ts.get_char(0) == '_' {
                proof {
                    assert(is_unset_tok(tseq[i as int]));
                }
            } else if n1 == 1 && ts.get_char(0) == '?' {
                proof {
                    assert(!is_unset_tok(tseq[i as int]));
                    assert(is_stop_tok(tseq[i as int]));
                }
                return Ok(po);
            } else {
                proof {
                    assert(!is_unset_tok(tseq[i as int]));
                    assert(!is_stop_tok(tseq[i as int]));
                }
                match parse_hex_color(ts) {
                    Some(c) => {
                        po.colors[i] = Some(c);
                    },
                    None => {
                        return Err(
                            ParseError::BadColorToken {
                                index: i,
                                token: String::from_str(ts),
                            },
                        );
                    },
                }
            }
        }
        if count != 9 {
            return Err(ParseError::WrongColorCount { count });
        }
        Ok(po)
    }
}

/// The canonical text form of a sequence of colors: their six-digit
/// lowercase literals joined by `-`.
pub open spec fn codes_join(cs: Seq<Color>) -> Seq<char>
    decreases cs.len(),
{
    if cs.len() == 0 {
        Seq::empty()
    } else if cs.len() == 1 {
        color_hex(cs[0])
    } else {
        color_hex(cs[0]) + seq!['-'] + codes_join(cs.drop_first())
    }
}

/// No dash among the six digits of a color literal.
proof fn lemma_color_hex_no_dash(c: Color)
    ensures
        forall|j: int| 0 <= j < 6 ==> color_hex(c)[j] != '-',
{
    lemma_hex_char_val(c.r as int / 16);
    lemma_hex_char_val(c.r as int % 16);
    lemma_hex_char_val(c.g as int / 16);
    lemma_hex_char_val(c.g as int % 16);
    lemma_hex_char_val(c.b as int / 16);
    lemma_hex_char_val(c.b as int % 16);
    assert forall|j: int| 0 <= j < 6 implies color_hex(c)[j] != '-' by {
        assert(is_hex_digit(color_hex(c)[j]));
    }
}

/// Splitting a joined code recovers exactly the color literals.
proof fn lemma_split_codes(cs: Seq<Color>)
    requires
        cs.len() >= 1,
    ensures
        split_seq(codes_join(cs), '-') =~= Seq::new(cs.len(), |i: int| color_hex(cs[i])),
    decreases cs.len(),
{
    let s = codes_join(cs);
    lemma_color_hex_no_dash(cs[0]);
    if cs.len() == 1 {
        assert(s == color_hex(cs[0]));
        lemma_first_sep_at(s, '-', 6);
        assert(split_seq(s, '-') == seq![s]);
    } else {
        let rest = codes_join(cs.drop_first());
        assert(s == color_hex(cs[0]) + seq!['-'] + rest);
        assert forall|j: int| 0 <= j < 6 implies s[j] != '-' by {
            assert(s[j] == color_hex(cs[0])[j]);
        }
        assert(s[6] == '-');
        lemma_first_sep_at(s, '-', 6);
        assert(s.take(6) =~= color_hex(cs[0]));
        assert(s.skip(7) =~= rest);
        lemma_split_codes(cs.drop_first());
        assert(split_seq(s, '-') == seq![color_hex(cs[0])] + split_seq(rest, '-'));
        assert forall|i: int| 0 <= i < cs.len() implies split_seq(s, '-')[i] == color_hex(
            cs[i],
        ) by {
            if i > 0 {
                assert(split_seq(rest, '-')[i - 1] == color_hex(cs.drop_first()[i - 1]));
                assert(cs.drop_first()[i - 1] == cs[i]);
            }
        }
    }
}

/// Scanning tokens that are all valid color literals fills every slot
/// from the scan point on.
proof fn lemma_parse_hex_tokens(toks: Seq<Seq<char>>, i: int, acc: Seq<Option<Color>>)
    requires
        toks.len() == 9,
        acc.len() == 9,
        0 <= i <= 9,
        forall|j: int| 0 <= j < 9 ==> hex6_valid(#[trigger] toks[j]),
    ensures
        parse_from(toks, i, acc) matches ParseOutcome::Parsed(res) && res.len() == 9 && (forall|
            j: int,
        |
            0 <= j < 9 ==> res[j] == if i <= j {
                Some(hex6_color(toks[j]))
            } else {
                acc[j]
            }),
    decreases 9 - i,
{
    if i < 9 {
        assert(!is_unset_tok(toks[i]) && !is_stop_tok(toks[i]));
        lemma_parse_hex_tokens(toks, i + 1, acc.update(i, Some(hex6_color(toks[i]))));
    }
}

/// The round trip: a complete palette's canonical code parses back to
/// exactly its own nine colors, every slot set.
pub proof fn lemma_code_round_trip(p: Palette)
    ensures
        spec_parse(codes_join(p.colors@)) == ParseOutcome::Parsed(
            Seq::new(9, |i: int| Some(p.colors@[i])),
        ),
{
    let cs = p.colors@;
    let s = codes_join(cs);
    lemma_split_codes(cs);
    let toks = split_seq(s, '-');
    assert forall|j: int| 0 <= j < 9 implies hex6_valid(#[trigger] toks[j]) by {
        lemma_color_hex_roundtrip(cs[j]);
    }
    lemma_parse_hex_tokens(toks, 0, Seq::new(9, |i: int| None));
    let out = parse_from(toks, 0, Seq::new(9, |i: int| None));
    let res = out->Parsed_0;
    assert forall|j: int| 0 <= j < 9 implies res[j] == Some(cs[j]) by {
        lemma_color_hex_roundtrip(cs[j]);
    }
    assert(res =~= Seq::new(9, |i: int| Some(cs[i])));
}

impl Palette {
    /// Writes the palette in its canonical text form: nine six-digit
    /// lowercase literals joined by `-`. This form parses back to the
    /// same nine colors (see `lemma_code_round_trip`).
    pub fn to_code(&self) -> (s: String)
        ensures
            s@ == codes_join(self.colors@),
    {
        proof {
            reveal_strlit("-");
        }
        let mut s = to_hex(&self.colors[0]);
        for i in 1..9usize
            invariant
                self.colors@.len() == 9,
                s@ == codes_join(self.colors@.take(i as int)),
        {
            s.append("-");
            let h = to_hex(&self.colors[i]);
            s.append(h.as_str());
            proof {
                reveal_strlit("-");
                lemma_codes_join_snoc(self.colors@.take(i as int + 1));
                assert(self.colors@.take(i as int + 1).drop_last() =~= self.colors@.take(
                    i as int,
                ));
                assert(self.colors@.take(i as int + 1).last() == self.colors@[i as int]);
            }
        }
        proof {
            assert(self.colors@.take(9) =~= self.colors@);
        }
        s
    }

    /// Parses a palette code and completes it: parse errors are exactly
    /// those of `PaletteOption::from_str`; on success every slot the code
    /// fixed appears unchanged in the generated palette, and any unset
    /// slots are synthesized as generation promises.
    pub fn from_str(s: &str) -> (r: Result<Palette, ParseError>)
        ensures
            (r is Ok) == (spec_parse(s@) is Parsed),
            r matches Ok(p) ==> (spec_parse(s@) matches ParseOutcome::Parsed(acc) && (forall|
                i: int,
            | 0 <= i < 9 && acc[i] is Some ==> p.colors@[i] == acc[i]->0) && ((exists|i: int|
                0 <= i < 9 && (#[trigger] acc[i]) is None) ==> crate::generator::synthesized_ok(
                acc,
                p.colors@,
            ))),
            match spec_parse(s@) {
                ParseOutcome::TooMany(n) => r matches Err(ParseError::TooManyColors { count })
                    && count == n,
                ParseOutcome::WrongCount(n) => r matches Err(
                    ParseError::WrongColorCount { count },
                ) && count == n,
                ParseOutcome::BadToken(i) => r matches Err(
                    ParseError::BadColorToken { index, token },
                ) && index == i && token@ == split_seq(s@, '-')[i],
                ParseOutcome::Parsed(_) => r is Ok,
            },
    {
        match PaletteOption::from_str(s) {
            Err(e) => Err(e),
            Ok(po) => {
                let mut rng = crate::rng::rng_from_entropy();
                Ok(crate::generator::generate(&po, &mut rng))
            },
        }
    }
}

/// Joining one more color appends a dash and its literal.
proof fn lemma_codes_join_snoc(cs: Seq<Color>)
    requires
        cs.len() >= 2,
    ensures
        codes_join(cs) == codes_join(cs.drop_last()) + seq!['-'] + color_hex(cs.last()),
    decreases cs.len(),
{
    if cs.len() == 2 {
        assert(cs.drop_first().len() == 1);
        assert(codes_join(cs.drop_first()) == color_hex(cs.drop_first()[0]));
        assert(cs.drop_last() =~= seq![cs[0]]);
        assert(codes_join(cs.drop_last()) == color_hex(cs[0]));
        assert(cs.drop_first()[0] == cs[1] && cs.last() == cs[1]);
    } else {
        lemma_codes_join_snoc(cs.drop_first());
        assert(cs.drop_first().drop_last() =~= cs.drop_last().drop_first());
        assert(cs.drop_first().last() == cs.last());
        assert(cs.drop_last().len() >= 2);
        assert(codes_join(cs.drop_last()) == color_hex(cs.drop_last()[0]) + seq!['-']
            + codes_join(cs.drop_last().drop_first()));
        assert(cs.drop_last()[0] == cs[0]);
        assert(codes_join(cs) == color_hex(cs[0]) + seq!['-'] + codes_join(cs.drop_first()));
        assert(codes_join(cs) =~= codes_join(cs.drop_last()) + seq!['-'] + color_hex(
            cs.last(),
        ));
    }
}

} // verus!
