use vstd::prelude::*;

verus! {

/// One parsed line of player input.
#[derive(Debug, Clone, Copy, PartialEq, Eq, Structural)]
pub enum Command {
    Exit,
    Dig(usize, usize),
    Flag(usize, usize),
}

/// Why a line of input was rejected.
#[derive(Debug, Clone, Copy, PartialEq, Eq, Structural)]
pub enum CommandParseError {
    UnknownCommand,
    InvalidCoords,
}

/// What the board answered to one player operation.
#[derive(Debug, Clone, Copy, PartialEq, Eq, Structural)]
pub enum CommandResult {
    Revealed,
    OutOfBounds,
    AlreadyOpen,
    AlreadyFlagged,
    Boom,
    BadCommand,
    Nothing,
}

/// The whitespace characters that separate and surround tokens.
pub open spec fn is_space(c: char) -> bool {
    c == ' ' || c == '\t' || c == '\n' || c == '\r' || c == '\x0c'
}

/// An uppercase ASCII letter folded to lowercase; any other character kept.
pub open spec fn lower_char(c: char) -> char {
    if c == 'A' {
        'a'
    } else if c == 'B' {
        'b'
    } else if c == 'C' {
        'c'
    } else if c == 'D' {
        'd'
    } else if c == 'E' {
        'e'
    } else if c == 'F' {
        'f'
    } else if c == 'G' {
        'g'
    } else if c == 'H' {
        'h'
    } else if c == 'I' {
        'i'
    } else if c == 'J' {
        'j'
    } else if c == 'K' {
        'k'
    } else if c == 'L' {
        'l'
    } else if c == 'M' {
        'm'
    } else if c == 'N' {
        'n'
    } else if c == 'O' {
        'o'
    } else if c == 'P' {
        'p'
    } else if c == 'Q' {
        'q'
    } else if c == 'R' {
        'r'
    } else if c == 'S' {
        's'
    } else if c == 'T' {
        't'
    } else if c == 'U' {
        'u'
    } else if c == 'V' {
        'v'
    } else if c == 'W' {
        'w'
    } else if c == 'X' {
        'x'
    } else if c == 'Y' {
        'y'
    } else if c == 'Z' {
        'z'
    } else {
        c
    }
}

/// The whole line folded to lowercase.
pub open spec fn lower_seq(s: Seq<char>) -> Seq<char> {
    s.map_values(|c: char| lower_char(c))
}

/// The row index of a lowercase letter, `'a'` giving zero, or a negative
/// value for any other character.
pub open spec fn letter_idx(c: char) -> int {
    if c == 'a' {
        0
    } else if c == 'b' {
        1
    } else if c == 'c' {
        2
    } else if c == 'd' {
        3
    } else if c == 'e' {
        4
    } else if c == 'f' {
        5
    } else if c == 'g' {
        6
    } else if c == 'h' {
        7
    } else if c == 'i' {
        8
    } else if c == 'j' {
        9
    } else if c == 'k' {
        10
    } else if c == 'l' {
        11
    } else if c == 'm' {
        12
    } else if c == 'n' {
        13
    } else if c == 'o' {
        14
    } else if c == 'p' {
        15
    } else if c == 'q' {
        16
    } else if c == 'r' {
        17
    } else if c == 's' {
        18
    } else if c == 't' {
        19
    } else if c == 'u' {
        20
    } else if c == 'v' {
        21
    } else if c == 'w' {
        22
    } else if c == 'x' {
        23
    } else if c == 'y' {
        24
    } else if c == 'z' {
        25
    } else {
        -1
    }
}

/// The value of a decimal digit character, or a negative value otherwise.
pub open spec fn digit_val(c: char) -> int {
    if c == '0' {
        0
    } else if c == '1' {
        1
    } else if c == '2' {
        2
    } else if c == '3' {
        3
    } else if c == '4' {
        4
    } else if c == '5' {
        5
    } else if c == '6' {
        6
    } else if c == '7' {
        7
    } else if c == '8' {
        8
    } else if c == '9' {
        9
    } else {
        -1
    }
}

/// Every character is a decimal digit.
pub open spec fn all_digits(s: Seq<char>) -> bool {
    forall|i: int| 0 <= i < s.len() ==> digit_val(#[trigger] s[i]) >= 0
}

/// The number a digit string denotes, most significant digit first.
pub open spec fn dec_value(s: Seq<char>) -> int
    decreases s.len(),
{
    if s.len() == 0 {
        0
    } else {
        dec_value(s.drop_last()) * 10 + digit_val(s.last())
    }
}

/// How many spaces the line starts with.
pub open spec fn lead_spaces(s: Seq<char>) -> int
    decreases s.len(),
{
    if s.len() == 0 {
        0
    } else if is_space(s[0]) {
        1 + lead_spaces(s.skip(1))
    } else {
        0
    }
}

/// How many spaces the line ends with.
pub open spec fn trail_spaces(s: Seq<char>) -> int
    decreases s.len(),
{
    if s.len() == 0 {
        0
    } else if is_space(s.last()) {
        1 + trail_spaces(s.drop_last())
    } else {
        0
    }
}

/// The length of the leading run without a space: the index of the first
/// space, or the whole length when there is none.
pub open spec fn until_space(s: Seq<char>) -> int
    decreases s.len(),
{
    if s.len() == 0 {
        0
    } else if is_space(s[0]) {
        0
    } else {
        1 + until_space(s.skip(1))
    }
}

/// The line with surrounding spaces removed.
pub open spec fn trimmed(s: Seq<char>) -> Seq<char> {
    if lead_spaces(s) == s.len() {
        Seq::empty()
    } else {
        s.subrange(lead_spaces(s), s.len() - trail_spaces(s))
    }
}

/// What a coordinate token denotes: a row letter followed by a positive
/// decimal column number, mapped to zero-based row and column indices, or
/// nothing when the token is malformed.
pub open spec fn coord_spec(s: Seq<char>) -> Option<(int, int)> {
    if s.len() < 2 {
        Option::None
    } else if letter_idx(s[0]) < 0 {
        Option::None
    } else if !all_digits(s.skip(1)) {
        Option::None
    } else if dec_value(s.skip(1)) == 0 {
        Option::None
    } else if dec_value(s.skip(1)) > usize::MAX {
        Option::None
    } else {
        Option::Some((letter_idx(s[0]), dec_value(s.skip(1)) - 1))
    }
}

/// What one raw line of input denotes. An empty line ends the session.
/// Otherwise the line is folded to lowercase and trimmed; a line without
/// spaces must be one of the exit words; a line with a space splits at the
/// first space run into a verb and a coordinate token, where a bad token
/// rejects the line whatever the verb says.
pub open spec fn parse_spec(s: Seq<char>) -> Result<Command, CommandParseError> {
    if s.len() == 0 {
        Result::Ok(Command::Exit)
    } else {
        let t = trimmed(lower_seq(s));
        let sp = until_space(t);
        if sp == t.len() {
            if t == "exit"@ || t == "e"@ || t == "quit"@ || t == "q"@ {
                Result::Ok(Command::Exit)
            } else {
                Result::Err(CommandParseError::UnknownCommand)
            }
        } else {
            let verb = t.take(sp);
            let rest = t.skip(sp);
            let coord = rest.skip(lead_spaces(rest));
            match coord_spec(coord) {
                Option::None => Result::Err(CommandParseError::InvalidCoords),
                Option::Some(yx) => {
                    if verb == "dig"@ || verb == "d"@ {
                        Result::Ok(Command::Dig(yx.0 as usize, yx.1 as usize))
                    } else if verb == "flag"@ || verb == "f"@ {
                        Result::Ok(Command::Flag(yx.0 as usize, yx.1 as usize))
                    } else {
                        Result::Err(CommandParseError::UnknownCommand)
                    }
                },
            }
        }
    }
}

/// The one or two digit characters a player types for a column number
/// between 1 and 99.
pub open spec fn dec_digits(c: int) -> Seq<char> {
    if c < 10 {
        seq![crate::field::digit_char(c)]
    } else {
        seq![crate::field::digit_char(c / 10), crate::field::digit_char(c % 10)]
    }
}

/// Round trip of coordinate notation: for every row letter and every
/// column number from 1 to 99, parsing the letter followed by the digits
/// gives back exactly the zero-based row index and column number minus one.
pub proof fn lemma_parse_coord_round_trip(r: char, c: int)
    requires
        letter_idx(r) >= 0,
        1 <= c <= 99,
    ensures
        coord_spec(seq![r] + dec_digits(c)) == Option::Some((letter_idx(r), c - 1)),
        letter_idx(r) == r as int - 'a' as int,
{
    let s = seq![r] + dec_digits(c);
    assert(s[0] == r);
    if c < 10 {
        let d = crate::field::digit_char(c);
        assert(s.skip(1) =~= seq![d]);
        assert(digit_val(d) == c);
        assert(seq![d].drop_last() =~= Seq::<char>::empty());
        assert(dec_value(Seq::<char>::empty()) == 0);
        assert(seq![d].last() == d);
        assert(dec_value(seq![d]) == c);
        assert(all_digits(s.skip(1)));
    } else {
        let d1 = crate::field::digit_char(c / 10);
        let d2 = crate::field::digit_char(c % 10);
        assert(s.skip(1) =~= seq![d1, d2]);
        assert(1 <= c / 10 <= 9 && 0 <= c % 10 <= 9);
        assert(digit_val(d1) == c / 10);
        assert(digit_val(d2) == c % 10);
        assert(seq![d1, d2].drop_last() =~= seq![d1]);
        assert(seq![d1].drop_last() =~= Seq::<char>::empty());
        assert(dec_value(Seq::<char>::empty()) == 0);
        assert(seq![d1].last() == d1);
        assert(dec_value(seq![d1]) == c / 10);
        assert(seq![d1, d2].last() == d2);
        assert(dec_value(seq![d1, d2]) == (c / 10) * 10 + c % 10);
        vstd::arithmetic::div_mod::lemma_fundamental_div_mod(c, 10);
        assert(all_digits(s.skip(1)));
    }
}

proof fn lemma_lead_spaces_char(s: Seq<char>, i: int)
    requires
        0 <= i <= s.len(),
        forall|j: int| 0 <= j < i ==> is_space(#[trigger] s[j]),
        i < s.len() ==> !is_space(s[i]),
    ensures
        lead_spaces(s) == i,
    decreases s.len(),
{
    if s.len() == 0 {
    } else if is_space(s[0]) {
        lemma_lead_spaces_char(s.skip(1), i - 1);
    }
}

proof fn lemma_trail_spaces_char(s: Seq<char>, i: int)
    requires
        0 <= i <= s.len(),
        forall|j: int| s.len() - i <= j < s.len() ==> is_space(#[trigger] s[j]),
        i < s.len() ==> !is_space(s[s.len() - 1 - i]),
    ensures
        trail_spaces(s) == i,
    decreases s.len(),
{
    if s.len() == 0 {
    } else if is_space(s.last()) {
        lemma_trail_spaces_char(s.drop_last(), i - 1);
    }
}

proof fn lemma_until_space_char(s: Seq<char>, i: int)
    requires
        0 <= i <= s.len(),
        forall|j: int| 0 <= j < i ==> !is_space(#[trigger] s[j]),
        i < s.len() ==> is_space(s[i]),
    ensures
        until_space(s) == i,
    decreases s.len(),
{
    if s.len() == 0 {
    } else if !is_space(s[0]) {
        lemma_until_space_char(s.skip(1), i - 1);
    }
}

proof fn lemma_dec_value_nonneg(s: Seq<char>)
    requires
        all_digits(s),
    ensures
        dec_value(s) >= 0,
    decreases s.len(),
{
    if s.len() > 0 {
        assert(all_digits(s.drop_last())) by {
            assert(forall|i: int|
                0 <= i < s.len() - 1 ==> #[trigger] s.drop_last()[i] == s[i]);
        }
        lemma_dec_value_nonneg(s.drop_last());
    }
}

proof fn lemma_dec_value_extend(s: Seq<char>, i: int)
    requires
        all_digits(s),
        0 <= i <= s.len(),
    ensures
        dec_value(s) >= dec_value(s.take(i)),
    decreases s.len() - i,
{
    if i < s.len() {
        lemma_dec_value_extend(s, i + 1);
        assert(s.take(i + 1).drop_last() =~= s.take(i));
        assert(all_digits(s.take(i))) by {
            assert(forall|j: int| 0 <= j < i ==> #[trigger] s.take(i)[j] == s[j]);
        }
        lemma_dec_value_nonneg(s.take(i));
        assert(s.take(i + 1).last() == s[i]);
        assert(dec_value(s.take(i + 1)) == dec_value(s.take(i)) * 10 + digit_val(s[i]));
    } else {
        assert(s.take(i) =~= s);
    }
}

fn is_space_exec(c: char) -> (r: bool)
    ensures
        r == is_space(c),
{
    c == ' ' || c == '\t' || c == '\n' || c == '\r' || c == '\x0c'
}

fn to_lower(c: char) -> (r: char)
    ensures
        r == lower_char(c),
{
    match c {
        'A' => 'a',
        'B' => 'b',
        'C' => 'c',
        'D' => 'd',
        'E' => 'e',
        'F' => 'f',
        'G' => 'g',
        'H' => 'h',
        'I' => 'i',
        'J' => 'j',
        'K' => 'k',
        'L' => 'l',
        'M' => 'm',
        'N' => 'n',
        'O' => 'o',
        'P' => 'p',
        'Q' => 'q',
        'R' => 'r',
        'S' => 's',
        'T' => 't',
        'U' => 'u',
        'V' => 'v',
        'W' => 'w',
        'X' => 'x',
        'Y' => 'y',
        'Z' => 'z',
        _ => c,
    }
}

fn letter_of(c: char) -> (r: Option<u8>)
    ensures
        match r {
            Some(d) => letter_idx(c) == d as int && d <= 25,
            None => letter_idx(c) < 0,
        },
{
    match c {
        'a' => Some(0),
        'b' => Some(1),
        'c' => Some(2),
        'd' => Some(3),
        'e' => Some(4),
        'f' => Some(5),
        'g' => Some(6),
        'h' => Some(7),
        'i' => Some(8),
        'j' => Some(9),
        'k' => Some(10),
        'l' => Some(11),
        'm' => Some(12),
        'n' => Some(13),
        'o' => Some(14),
        'p' => Some(15),
        'q' => Some(16),
        'r' => Some(17),
        's' => Some(18),
        't' => Some(19),
        'u' => Some(20),
        'v' => Some(21),
        'w' => Some(22),
        'x' => Some(23),
        'y' => Some(24),
        'z' => Some(25),
        _ => None,
    }
}

fn digit_of(c: char) -> (r: Option<u8>)
    ensures
        match r {
            Some(d) => digit_val(c) == d as int && d <= 9,
            None => digit_val(c) < 0,
        },
{
    match c {
        '0' => Some(0),
        '1' => Some(1),
        '2' => Some(2),
        '3' => Some(3),
        '4' => Some(4),
        '5' => Some(5),
        '6' => Some(6),
        '7' => Some(7),
        '8' => Some(8),
        '9' => Some(9),
        _ => None,
    }
}

#[verifier::loop_isolation(false)]
fn vec_eq_str(v: &Vec<char>, s: &str) -> (r: bool)
    ensures
        r == (v@ == s@),
{
    let n = s.unicode_len();
    if v.len() != n {
        proof {
            assert(v@ != s@) by {
                if v@ == s@ {
                    assert(v@.len() == s@.len());
                }
            }
        }
        return false;
    }
    let mut i: usize = 0;
    while i < n
        invariant
            i <= n,
            forall|j: int| 0 <= j < i ==> v@[j] == s@[j],
        decreases n - i,
    {
        if v[i] != s.get_char(i) {
            return false;
        }
        i = i + 1;
    }
    proof {
        assert(v@ =~= s@);
    }
    true
}

/// Read a coordinate token held as characters.
#[verifier::loop_isolation(false)]
fn parse_coord_chars(v: &Vec<char>) -> (r: Option<(usize, usize)>)
    ensures
        match r {
            Some(p) => coord_spec(v@) == Option::Some((p.0 as int, p.1 as int)),
            None => coord_spec(v@) is None,
        },
{
    if v.len() < 2 {
        return None;
    }
    let row = match letter_of(v[0]) {
        Some(r) => r,
        None => {
            return None;
        },
    };
    let ghost digits = v@.skip(1);
    let mut val: usize = 0;
    let mut i: usize = 1;
    while i < v.len()
        invariant
            1 <= i <= v@.len(),
            all_digits(digits.take(i - 1)),
            val == dec_value(digits.take(i - 1)),
        decreases v@.len() - i,
    {
        let d = match digit_of(v[i]) {
            Some(d) => d,
            None => {
                proof {
                    assert(digits[i - 1] == v@[i as int]);
                    assert(!all_digits(digits));
                }
                return None;
            },
        };
        proof {
            assert(digits.take(i as int).drop_last() =~= digits.take(i - 1));
            assert(digits.take(i as int).last() == v@[i as int]);
            assert(forall|j: int|
                0 <= j < i ==> #[trigger] digits.take(i as int)[j] == digits[j]);
        }
        let v10 = match val.checked_mul(10) {
            Some(x) => x,
            None => {
                proof {
                    if all_digits(digits) {
                        lemma_dec_value_extend(digits, i as int);
                        assert(digit_val(digits[i - 1]) >= 0);
                    }
                }
                return None;
            },
        };
        let nv = match v10.checked_add(d as usize) {
            Some(x) => x,
            None => {
                proof {
                    if all_digits(digits) {
                        lemma_dec_value_extend(digits, i as int);
                    }
                }
                return None;
            },
        };
        val = nv;
        i = i + 1;
    }
    proof {
        assert(digits.take(v@.len() - 1) =~= digits);
    }
    if val == 0 {
        return None;
    }
    Some((row as usize, val - 1))
}

/// Read a coordinate token such as `b7`: the row letter and the one-based
/// column number become zero-based row and column indices.
pub fn parse_coord(s: &str) -> (r: Option<(usize, usize)>)
    ensures
        match r {
            Some(p) => coord_spec(s@) == Option::Some((p.0 as int, p.1 as int)),
            None => coord_spec(s@) is None,
        },
{
    let n = s.unicode_len();
    let mut v: Vec<char> = Vec::new();
    let mut i: usize = 0;
    while i < n
        invariant
            i <= n,
            n == s@.len(),
            v@ == s@.take(i as int),
        decreases n - i,
    {
        v.push(s.get_char(i));
        proof {
            assert(v@ =~= s@.take(i + 1));
        }
        i = i + 1;
    }
    proof {
        assert(v@ =~= s@);
    }
    parse_coord_chars(&v)
}

impl Command {
    /// Parse one raw line of player input.
    #[verifier::loop_isolation(false)]
    #[verifier::rlimit(60)]
    pub fn parse(s: &str) -> (r: Result<Command, CommandParseError>)
        ensures
            r == parse_spec(s@),
    {
        let n = s.unicode_len();
        if n == 0 {
            return Ok(Command::Exit);
        }
        let mut low: Vec<char> = Vec::new();
        let mut i: usize = 0;
        while i < n
            invariant
                i <= n,
                low@ == lower_seq(s@).take(i as int),
            decreases n - i,
        {
            low.push(to_lower(s.get_char(i)));
            proof {
                assert(low@ =~= lower_seq(s@).take(i + 1));
            }
            i = i + 1;
        }
        let ghost ls = lower_seq(s@);
        proof {
            assert(low@ =~= ls);
        }
        let mut a: usize = 0;
        while a < n && is_space_exec(low[a])
            invariant
                a <= n,
                forall|j: int| 0 <= j < a ==> is_space(#[trigger] ls[j]),
            decreases n - a,
        {
            a = a + 1;
        }
        proof {
            lemma_lead_spaces_char(ls, a as int);
        }
        if a == n {
            proof {
                reveal_strlit("exit");
                reveal_strlit("e");
                reveal_strlit("quit");
                reveal_strlit("q");
            }
            return Err(CommandParseError::UnknownCommand);
        }
        let mut b: usize = n;
        while b > a && is_space_exec(low[b - 1])
            invariant
                a <= b <= n,
                forall|j: int| b <= j < n ==> is_space(#[trigger] ls[j]),
            decreases b,
        {
            b = b - 1;
        }
        proof {
            if b == a {
                assert(is_space(ls[a as int]));
            }
            lemma_trail_spaces_char(ls, n - b);
            assert(trimmed(ls) =~= ls.subrange(a as int, b as int));
        }
        let ghost t = trimmed(ls);
        let mut tv: Vec<char> = Vec::new();
        let mut i: usize = a;
        while i < b
            invariant
                a <= i <= b,
                tv@ == ls.subrange(a as int, i as int),
            decreases b - i,
        {
            tv.push(low[i]);
            proof {
                assert(tv@ =~= ls.subrange(a as int, i + 1));
            }
            i = i + 1;
        }
        proof {
            assert(tv@ == t);
        }
        let tlen = tv.len();
        let mut sp: usize = 0;
        while sp < tlen && !is_space_exec(tv[sp])
            invariant
                sp <= tlen,
                forall|j: int| 0 <= j < sp ==> !is_space(#[trigger] t[j]),
            decreases tlen - sp,
        {
            sp = sp + 1;
        }
        proof {
            lemma_until_space_char(t, sp as int);
        }
        if sp == tlen {
            let is_exit = vec_eq_str(&tv, "exit") || vec_eq_str(&tv, "e") || vec_eq_str(&tv, "quit")
                || vec_eq_str(&tv, "q");
            if is_exit {
                Ok(Command::Exit)
            } else {
                Err(CommandParseError::UnknownCommand)
            }
        } else {
            let mut c0: usize = sp;
            while c0 < tlen && is_space_exec(tv[c0])
                invariant
                    sp <= c0 <= tlen,
                    forall|j: int| sp <= j < c0 ==> is_space(#[trigger] t[j]),
                decreases tlen - c0,
            {
                c0 = c0 + 1;
            }
            proof {
                if c0 == tlen {
                    assert(is_space(t[tlen - 1]));
                    assert(t[tlen - 1] == ls[b - 1]);
                }
                let rest = t.skip(sp as int);
                assert(forall|j: int| 0 <= j < c0 - sp ==> #[trigger] rest[j] == t[sp + j]);
                lemma_lead_spaces_char(rest, c0 - sp);
            }
            let mut cv: Vec<char> = Vec::new();
            let mut i: usize = c0;
            while i < tlen
                invariant
                    c0 <= i <= tlen,
                    cv@ == t.subrange(c0 as int, i as int),
                decreases tlen - i,
            {
                cv.push(tv[i]);
                proof {
                    assert(cv@ =~= t.subrange(c0 as int, i + 1));
                }
                i = i + 1;
            }
            proof {
                assert(cv@ =~= t.skip(sp as int).skip(lead_spaces(t.skip(sp as int))));
            }
            let mut vv: Vec<char> = Vec::new();
            let mut i: usize = 0;
            while i < sp
                invariant
                    i <= sp,
                    sp <= tlen == t.len(),
                    vv@ == t.subrange(0, i as int),
                decreases sp - i,
            {
                vv.push(tv[i]);
                proof {
                    assert(vv@ =~= t.subrange(0, i + 1));
                }
                i = i + 1;
            }
            proof {
                assert(vv@ =~= t.take(sp as int));
            }
            match parse_coord_chars(&cv) {
                None => Err(CommandParseError::InvalidCoords),
                Some(p) => {
                    if vec_eq_str(&vv, "dig") || vec_eq_str(&vv, "d") {
                        Ok(Command::Dig(p.0, p.1))
                    } else if vec_eq_str(&vv, "flag") || vec_eq_str(&vv, "f") {
                        Ok(Command::Flag(p.0, p.1))
                    } else {
                        Err(CommandParseError::UnknownCommand)
                    }
                },
            }
        }
    }
}

} // verus!
