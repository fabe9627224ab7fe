//! The wire codec: the colon-delimited text grammar that requests travel
//! in, and the decimal text that offsets and messages travel in.
//!
//! A request line is `<command>:<fields>`. `send` carries a key and a
//! message; `poll` and `commit-offsets` carry key/offset pairs and
//! `list-committed-offsets` carries keys, each list terminated by an empty
//! token. All integers are base-10 and non-negative.

use vstd::prelude::*;
use vstd::string::StrSliceExecFns;
use crate::store::{LogStore, committed_after, keys_view, pairs_view};

verus! {

/// A decimal digit.
pub open spec fn is_digit(c: char) -> bool {
    '0' <= c && c <= '9'
}

/// Nothing but decimal digits — together with being non-empty, the only
/// shape an integer may take on the wire.
pub open spec fn is_digits(s: Seq<char>) -> bool {
    forall|j: int| 0 <= j < s.len() ==> is_digit(#[trigger] s[j])
}

/// The numeric value of one digit.
pub open spec fn digit_val(c: char) -> nat {
    ((c as int) - ('0' as int)) as nat
}

/// The numeric value of a digit string, most significant digit first.
pub open spec fn dec_val(s: Seq<char>) -> nat
    decreases s.len(),
{
    if s.len() == 0 {
        0
    } else {
        dec_val(s.drop_last()) * 10 + digit_val(s.last())
    }
}

/// The digit for one value below ten.
pub open spec fn digit_char(d: nat) -> char {
    if d == 0 {
        '0'
    } else if d == 1 {
        '1'
    } else if d == 2 {
        '2'
    } else if d == 3 {
        '3'
    } else if d == 4 {
        '4'
    } else if d == 5 {
        '5'
    } else if d == 6 {
        '6'
    } else if d == 7 {
        '7'
    } else if d == 8 {
        '8'
    } else {
        '9'
    }
}

/// The canonical decimal rendering of a value: no sign, no leading zeros.
pub open spec fn dec_str_of(n: nat) -> Seq<char>
    decreases n,
{
    if n < 10 {
        seq![digit_char(n)]
    } else {
        dec_str_of(n / 10).push(digit_char(n % 10))
    }
}

/// A value is at least the value of any of its digit-string prefixes.
proof fn lemma_dec_val_take_le(s: Seq<char>, i: int)
    requires
        0 <= i <= s.len(),
    ensures
        dec_val(s.take(i)) <= dec_val(s),
    decreases s.len(),
{
    if i < s.len() {
        assert(s.drop_last().take(i) =~= s.take(i));
        lemma_dec_val_take_le(s.drop_last(), i);
    } else {
        assert(s.take(i) =~= s);
    }
}

/// Law: decimal rendering and decimal parsing are inverse — the canonical
/// rendering of any value is a non-empty digit string that parses back to
/// exactly that value.
pub proof fn lemma_dec_round_trip(n: nat)
    ensures
        dec_str_of(n).len() > 0,
        is_digits(dec_str_of(n)),
        dec_val(dec_str_of(n)) == n,
    decreases n,
{
    assert(digit_val(digit_char(n % 10)) == n % 10);
    if n < 10 {
        assert(n % 10 == n);
        let s = dec_str_of(n);
        assert(s =~= seq![digit_char(n)]);
        assert(s.len() == 1 && s.last() == digit_char(n));
        assert(s.drop_last() =~= Seq::<char>::empty());
        assert(dec_val(s.drop_last()) == 0);
        assert(dec_val(s) == 0 * 10 + digit_val(digit_char(n)));
    } else {
        lemma_dec_round_trip(n / 10);
        let s = dec_str_of(n / 10).push(digit_char(n % 10));
        assert(s.drop_last() =~= dec_str_of(n / 10));
        assert(dec_val(s) == (n / 10) * 10 + n % 10);
        assert(n / 10 * 10 + n % 10 == n);
        assert forall|j: int| 0 <= j < s.len() implies is_digit(#[trigger] s[j]) by {
            if j < s.len() - 1 {
                assert(s[j] == dec_str_of(n / 10)[j]);
            }
        }
    }
}

/// Parses a base-10 non-negative integer: accepts exactly the non-empty
/// all-digit strings whose value fits in `usize`, and returns that value.
pub fn parse_decimal(s: &str) -> (r: Option<usize>)
    ensures
        match r {
            Some(v) => s@.len() > 0 && is_digits(s@) && v == dec_val(s@),
            None => s@.len() == 0 || !is_digits(s@) || dec_val(s@) > usize::MAX,
        },
{
    let n = s.unicode_len();
    if n == 0 {
        return None;
    }
    let mut acc: usize = 0;
    let mut i: usize = 0;
    while i < n
        invariant
            n == s@.len(),
            0 <= i <= n,
            forall|j: int| 0 <= j < i ==> is_digit(#[trigger] s@[j]),
            acc == dec_val(s@.take(i as int)),
        decreases n - i,
    {
        let c = s.get_char(i);
        let cv = c as u32;
        if cv < 48 || cv > 57 {
            assert(!is_digit(s@[i as int]));
            return None;
        }
        let d = (cv - 48) as usize;
        proof {
            assert(s@.take(i + 1).drop_last() =~= s@.take(i as int));
            assert(s@.take(i + 1).last() == s@[i as int]);
            assert(d == digit_val(s@[i as int]));
        }
        if acc > (usize::MAX - d) / 10 {
            proof {
                assert(acc * 10 + d > usize::MAX) by (nonlinear_arith)
                    requires
                        acc > (usize::MAX - d) / 10,
                        d <= usize::MAX,
                ;
                assert(dec_val(s@.take(i + 1)) > usize::MAX);
                lemma_dec_val_take_le(s@, i + 1);
            }
            return None;
        }
        proof {
            assert(acc * 10 + d <= usize::MAX) by (nonlinear_arith)
                requires
                    acc <= (usize::MAX - d) / 10,
                    d <= usize::MAX,
            ;
        }
        acc = acc * 10 + d;
        i = i + 1;
    }
    proof {
        assert(s@.take(n as int) =~= s@);
    }
    Some(acc)
}

fn digit_string(d: usize) -> (r: String)
    requires
        d < 10,
    ensures
        r@ == seq![digit_char(d as nat)],
{
    let r = match d {
        0 => "0",
        1 => "1",
        2 => "2",
        3 => "3",
        4 => "4",
        5 => "5",
        6 => "6",
        7 => "7",
        8 => "8",
        _ => "9",
    };
    proof {
        reveal_strlit("0");
        reveal_strlit("1");
        reveal_strlit("2");
        reveal_strlit("3");
        reveal_strlit("4");
        reveal_strlit("5");
        reveal_strlit("6");
        reveal_strlit("7");
        reveal_strlit("8");
        reveal_strlit("9");
        assert(r@ =~= seq![digit_char(d as nat)]);
    }
    r.to_owned()
}

/// Renders a value as canonical decimal text, exactly as `send` responses
/// carry an assigned offset.
pub fn format_decimal(n: usize) -> (r: String)
    ensures
        r@ == dec_str_of(n as nat),
    decreases n,
{
    if n < 10 {
        digit_string(n)
    } else {
        let mut r = format_decimal(n / 10);
        let last = digit_string(n % 10);
        r.append(last.as_str());
        proof {
            assert(r@ =~= dec_str_of(n as nat));
        }
        r
    }
}

/// Whether the sequence holds a field separator.
pub open spec fn has_colon(s: Seq<char>) -> bool {
    exists|i: int| 0 <= i < s.len() && s[i] == ':'
}

/// The position of the first field separator, or the length when there is
/// none.
pub open spec fn colon_idx(s: Seq<char>) -> int
    decreases s.len(),
{
    if s.len() == 0 {
        0
    } else if s[0] == ':' {
        0
    } else {
        1 + colon_idx(s.drop_first())
    }
}

/// The first field of a line: everything before the first separator.
pub open spec fn token_of(s: Seq<char>) -> Seq<char> {
    s.take(colon_idx(s))
}

/// What remains of a line after its first field and separator.
pub open spec fn rest_of(s: Seq<char>) -> Seq<char> {
    s.skip(colon_idx(s) + 1)
}

pub proof fn lemma_colon_idx(s: Seq<char>)
    ensures
        0 <= colon_idx(s) <= s.len(),
        has_colon(s) <==> colon_idx(s) < s.len(),
        colon_idx(s) < s.len() ==> s[colon_idx(s)] == ':',
        forall|j: int| 0 <= j < colon_idx(s) ==> s[j] != ':',
    decreases s.len(),
{
    if s.len() == 0 {
        assert(!has_colon(s));
    } else if s[0] == ':' {
        assert(has_colon(s));
    } else {
        lemma_colon_idx(s.drop_first());
        assert forall|j: int| 0 <= j < colon_idx(s) implies s[j] != ':' by {
            if j > 0 {
                assert(s.drop_first()[j - 1] != ':');
            }
        }
        if has_colon(s) {
            let i = choose|i: int| 0 <= i < s.len() && s[i] == ':';
            assert(s.drop_first()[i - 1] == ':');
            assert(has_colon(s.drop_first()));
        }
        if colon_idx(s) < s.len() {
            assert(s[colon_idx(s)] == s.drop_first()[colon_idx(s.drop_first())]);
            assert(has_colon(s));
        }
    }
}

#[derive(Debug, PartialEq)]
pub enum ParseRequestError {
    /// A field separator was missing; carries the text left unconsumed.
    InvalidFormat(String),
    /// The command token named no known command; carries that token.
    InvalidCommand(String),
    /// An offset or message field was not a base-10 integer that fits;
    /// carries that field.
    InvalidNumber(String),
}

/// Splits a line at its first field separator. Fails, reporting the whole
/// text, exactly when there is no separator.
pub fn take_first_token<'a>(s: &'a str) -> (r: Result<(&'a str, &'a str), ParseRequestError>)
    ensures
        match r {
            Ok(p) => has_colon(s@) && p.0@ == token_of(s@) && p.1@ == rest_of(s@),
            Err(e) => !has_colon(s@) && (e matches ParseRequestError::InvalidFormat(t) && t@
                == s@),
        },
{
    let n = s.unicode_len();
    let mut i: usize = 0;
    while i < n
        invariant
            n == s@.len(),
            0 <= i <= n,
            forall|j: int| 0 <= j < i ==> s@[j] != ':',
        decreases n - i,
    {
        if s.get_char(i) == ':' {
            proof {
                lemma_colon_idx(s@);
                if colon_idx(s@) < i {
                    assert(s@[colon_idx(s@)] != ':');
                }
                assert(colon_idx(s@) == i);
            }
            let tok = s.substring_char(0, i);
            let rest = s.substring_char(i + 1, n);
            proof {
                assert(tok@ =~= token_of(s@));
                assert(rest@ =~= rest_of(s@));
            }
            return Ok((tok, rest));
        }
        i = i + 1;
    }
    proof {
        lemma_colon_idx(s@);
        if has_colon(s@) {
            assert(s@[colon_idx(s@)] == ':');
        }
    }
    Err(ParseRequestError::InvalidFormat(s.to_owned()))
}

/// Character-for-character string equality.
pub fn str_eq(a: &str, b: &str) -> (r: bool)
    ensures
        r == (a@ == b@),
{
    let na = a.unicode_len();
    let nb = b.unicode_len();
    if na != nb {
        proof {
            if a@ == b@ {
                assert(a@.len() == b@.len());
            }
        }
        return false;
    }
    let mut i: usize = 0;
    while i < na
        invariant
            na == a@.len(),
            nb == b@.len(),
            na == nb,
            0 <= i <= na,
            forall|j: int| 0 <= j < i ==> a@[j] == b@[j],
        decreases na - i,
    {
        if a.get_char(i) != b.get_char(i) {
            proof {
                if a@ == b@ {
                    assert(a@[i as int] == b@[i as int]);
                }
            }
            return false;
        }
        i = i + 1;
    }
    proof {
        assert(a@ =~= b@);
    }
    true
}

/// A parsed request: the four operations the store serves.
#[derive(Debug, PartialEq)]
pub enum Request {
    Send { key: String, msg: usize },
    Poll { offsets: Vec<(String, usize)> },
    CommitOffsets { offsets: Vec<(String, usize)> },
    ListCommittedOffsets { keys: Vec<String> },
}

/// The mathematical shape of a parsed request.
pub enum SpecRequest {
    Send { key: Seq<char>, msg: usize },
    Poll { offsets: Seq<(Seq<char>, usize)> },
    CommitOffsets { offsets: Seq<(Seq<char>, usize)> },
    ListCommittedOffsets { keys: Seq<Seq<char>> },
}

/// The mathematical shape of a parse error.
pub enum SpecParseError {
    InvalidFormat(Seq<char>),
    InvalidCommand(Seq<char>),
    InvalidNumber(Seq<char>),
}

pub open spec fn req_view(r: Request) -> SpecRequest {
    match r {
        Request::Send { key, msg } => SpecRequest::Send { key: key@, msg },
        Request::Poll { offsets } => SpecRequest::Poll { offsets: pairs_view(offsets@) },
        Request::CommitOffsets { offsets } => SpecRequest::CommitOffsets {
            offsets: pairs_view(offsets@),
        },
        Request::ListCommittedOffsets { keys } => SpecRequest::ListCommittedOffsets {
            keys: keys_view(keys@),
        },
    }
}

pub open spec fn err_view(e: ParseRequestError) -> SpecParseError {
    match e {
        ParseRequestError::InvalidFormat(t) => SpecParseError::InvalidFormat(t@),
        ParseRequestError::InvalidCommand(t) => SpecParseError::InvalidCommand(t@),
        ParseRequestError::InvalidNumber(t) => SpecParseError::InvalidNumber(t@),
    }
}

/// Whether some entry carries this key.
pub open spec fn pairs_contain(entries: Seq<(Seq<char>, usize)>, k: Seq<char>) -> bool {
    exists|i: int| 0 <= i < entries.len() && entries[i].0 == k
}

/// What parsing a key/offset pair list comes to: pairs are consumed until
/// an empty key token; a missing separator or a bad number is an error. A
/// later pair with the same key wins over an earlier one.
pub open spec fn parse_pairs(s: Seq<char>) -> Result<Seq<(Seq<char>, usize)>, SpecParseError>
    decreases s.len(),
    via parse_pairs_decreases
{
    if !has_colon(s) {
        Err(SpecParseError::InvalidFormat(s))
    } else {
        let k = token_of(s);
        let r1 = rest_of(s);
        if k.len() == 0 {
            Ok(Seq::empty())
        } else if !has_colon(r1) {
            Err(SpecParseError::InvalidFormat(r1))
        } else {
            let v = token_of(r1);
            let r2 = rest_of(r1);
            if v.len() == 0 || !is_digits(v) || dec_val(v) > usize::MAX {
                Err(SpecParseError::InvalidNumber(v))
            } else {
                match parse_pairs(r2) {
                    Err(e) => Err(e),
                    Ok(rest) => Ok(
                        if pairs_contain(rest, k) {
                            rest
                        } else {
                            seq![(k, dec_val(v) as usize)] + rest
                        },
                    ),
                }
            }
        }
    }
}

#[via_fn]
proof fn parse_pairs_decreases(s: Seq<char>) {
    lemma_colon_idx(s);
    if has_colon(s) {
        lemma_colon_idx(rest_of(s));
    }
}

/// What parsing a key list comes to: keys are consumed until an empty
/// token; a missing separator is an error. Duplicates are kept.
pub open spec fn parse_key_seq(s: Seq<char>) -> Result<Seq<Seq<char>>, SpecParseError>
    decreases s.len(),
    via parse_key_seq_decreases
{
    if !has_colon(s) {
        Err(SpecParseError::InvalidFormat(s))
    } else {
        let k = token_of(s);
        let r1 = rest_of(s);
        if k.len() == 0 {
            Ok(Seq::empty())
        } else {
            match parse_key_seq(r1) {
                Err(e) => Err(e),
                Ok(rest) => Ok(seq![k] + rest),
            }
        }
    }
}

#[via_fn]
proof fn parse_key_seq_decreases(s: Seq<char>) {
    lemma_colon_idx(s);
}

/// What parsing a whole request line comes to: the first token selects the
/// command, the rest is consumed as that command's fields demand.
pub open spec fn parse_request_spec(s: Seq<char>) -> Result<SpecRequest, SpecParseError> {
    if !has_colon(s) {
        Err(SpecParseError::InvalidFormat(s))
    } else {
        let cmd = token_of(s);
        let remain = rest_of(s);
        if cmd == "send"@ {
            if !has_colon(remain) {
                Err(SpecParseError::InvalidFormat(remain))
            } else {
                let key = token_of(remain);
                let m = rest_of(remain);
                if m.len() == 0 || !is_digits(m) || dec_val(m) > usize::MAX {
                    Err(SpecParseError::InvalidNumber(m))
                } else {
                    Ok(SpecRequest::Send { key, msg: dec_val(m) as usize })
                }
            }
        } else if cmd == "poll"@ {
            match parse_pairs(remain) {
                Ok(offsets) => Ok(SpecRequest::Poll { offsets }),
                Err(e) => Err(e),
            }
        } else if cmd == "commit-offsets"@ {
            match parse_pairs(remain) {
                Ok(offsets) => Ok(SpecRequest::CommitOffsets { offsets }),
                Err(e) => Err(e),
            }
        } else if cmd == "list-committed-offsets"@ {
            match parse_key_seq(remain) {
                Ok(keys) => Ok(SpecRequest::ListCommittedOffsets { keys }),
                Err(e) => Err(e),
            }
        } else {
            Err(SpecParseError::InvalidCommand(cmd))
        }
    }
}

fn contains_pair_key(entries: &Vec<(String, usize)>, key: &str) -> (r: bool)
    ensures
        r == pairs_contain(pairs_view(entries@), key@),
{
    let n = entries.len();
    for i in 0..n
        invariant
            n == entries@.len(),
            forall|j: int| 0 <= j < i ==> pairs_view(entries@)[j].0 != key@,
    {
        if str_eq(entries[i].0.as_str(), key) {
            proof {
                assert(pairs_view(entries@)[i as int].0 == key@);
            }
            return true;
        }
        proof {
            assert(pairs_view(entries@)[i as int].0 == entries@[i as int].0@);
        }
    }
    false
}

/// Parses a key/offset pair list, as `poll` and `commit-offsets` carry it.
pub fn parse_offsets(s: &str) -> (r: Result<Vec<(String, usize)>, ParseRequestError>)
    ensures
        match r {
            Ok(v) => parse_pairs(s@) == Ok::<_, SpecParseError>(pairs_view(v@)),
            Err(e) => parse_pairs(s@) == Err::<Seq<(Seq<char>, usize)>, _>(err_view(e)),
        },
    decreases s@.len(),
{
    let (key, r1) = match take_first_token(s) {
        Ok(p) => p,
        Err(e) => {
            return Err(e);
        },
    };
    if key.unicode_len() == 0 {
        let empty: Vec<(String, usize)> = Vec::new();
        proof {
            assert(pairs_view(empty@) =~= Seq::<(Seq<char>, usize)>::empty());
        }
        return Ok(empty);
    }
    let (off_str, r2) = match take_first_token(r1) {
        Ok(p) => p,
        Err(e) => {
            return Err(e);
        },
    };
    let off = match parse_decimal(off_str) {
        Some(o) => o,
        None => {
            return Err(ParseRequestError::InvalidNumber(off_str.to_owned()));
        },
    };
    proof {
        lemma_colon_idx(s@);
        lemma_colon_idx(r1@);
    }
    let mut rest = match parse_offsets(r2) {
        Ok(v) => v,
        Err(e) => {
            return Err(e);
        },
    };
    let ghost rest0 = rest@;
    if !contains_pair_key(&rest, key) {
        rest.insert(0, (key.to_owned(), off));
        proof {
            assert(pairs_view(rest@) =~= seq![(key@, off)] + pairs_view(rest0));
        }
    }
    Ok(rest)
}

/// Parses a key list, as `list-committed-offsets` carries it.
pub fn parse_keys(s: &str) -> (r: Result<Vec<String>, ParseRequestError>)
    ensures
        match r {
            Ok(v) => parse_key_seq(s@) == Ok::<_, SpecParseError>(keys_view(v@)),
            Err(e) => parse_key_seq(s@) == Err::<Seq<Seq<char>>, _>(err_view(e)),
        },
    decreases s@.len(),
{
    let (key, r1) = match take_first_token(s) {
        Ok(p) => p,
        Err(e) => {
            return Err(e);
        },
    };
    if key.unicode_len() == 0 {
        let empty: Vec<String> = Vec::new();
        proof {
            assert(keys_view(empty@) =~= Seq::<Seq<char>>::empty());
        }
        return Ok(empty);
    }
    proof {
        lemma_colon_idx(s@);
    }
    let mut rest = match parse_keys(r1) {
        Ok(v) => v,
        Err(e) => {
            return Err(e);
        },
    };
    let ghost rest0 = rest@;
    rest.insert(0, key.to_owned());
    proof {
        assert(keys_view(rest@) =~= seq![key@] + keys_view(rest0));
    }
    Ok(rest)
}

/// Parses one request line into a typed request, or reports exactly why
/// the line is malformed.
pub fn parse_request(s: &str) -> (r: Result<Request, ParseRequestError>)
    ensures
        match r {
            Ok(req) => parse_request_spec(s@) == Ok::<_, SpecParseError>(req_view(req)),
            Err(e) => parse_request_spec(s@) == Err::<SpecRequest, _>(err_view(e)),
        },
{
    let (cmd, remain) = match take_first_token(s) {
        Ok(p) => p,
        Err(e) => {
            return Err(e);
        },
    };
    if str_eq(cmd, "send") {
        let (key, msg_str) = match take_first_token(remain) {
            Ok(p) => p,
            Err(e) => {
                return Err(e);
            },
        };
        match parse_decimal(msg_str) {
            Some(msg) => Ok(Request::Send { key: key.to_owned(), msg }),
            None => Err(ParseRequestError::InvalidNumber(msg_str.to_owned())),
        }
    } else if str_eq(cmd, "poll") {
        match parse_offsets(remain) {
            Ok(offsets) => Ok(Request::Poll { offsets }),
            Err(e) => Err(e),
        }
    } else if str_eq(cmd, "commit-offsets") {
        match parse_offsets(remain) {
            Ok(offsets) => Ok(Request::CommitOffsets { offsets }),
            Err(e) => Err(e),
        }
    } else if str_eq(cmd, "list-committed-offsets") {
        match parse_keys(remain) {
            Ok(keys) => Ok(Request::ListCommittedOffsets { keys }),
            Err(e) => Err(e),
        }
    } else {
        Err(ParseRequestError::InvalidCommand(cmd.to_owned()))
    }
}

/// What a poll returns for a whole batch of requested keys and offsets.
pub open spec fn poll_results(s: LogStore, offsets: Seq<(Seq<char>, usize)>) -> Seq<
    (Seq<char>, Seq<(usize, usize)>),
> {
    offsets.map(|i: int, p: (Seq<char>, usize)| (p.0, s.poll_entry(p.0, p.1)))
}

/// One store step: parses one request line, applies it to the store, and
/// renders the response body. A malformed line leaves the store untouched
/// and yields the empty response, and the store goes on serving.
pub fn handle_request(store: &mut LogStore, line: &str) -> (resp: String)
    ensures
        match parse_request_spec(line@) {
            Err(_) => resp@ == Seq::<char>::empty() && *final(store) == *old(store),
            Ok(SpecRequest::Send { key, msg }) => resp@ == dec_str_of(
                old(store).log_of(key).len(),
            ) && final(store).log_of(key) == old(store).log_of(key).push(msg) && (forall|
                k: Seq<char>,
            |
                k != key ==> final(store).log_of(k) == old(store).log_of(k)) && (forall|
                k: Seq<char>,
            | final(store).committed_of(k) == old(store).committed_of(k)),
            Ok(SpecRequest::Poll { offsets }) => resp@ == crate::wire::poll_json_of(
                poll_results(*old(store), offsets),
            ) && *final(store) == *old(store),
            Ok(SpecRequest::CommitOffsets { offsets }) => resp@ == Seq::<char>::empty() && (forall|
                k: Seq<char>,
            | final(store).log_of(k) == old(store).log_of(k)) && (forall|k: Seq<char>|
                final(store).committed_of(k) == committed_after(
                    old(store).committed_of(k),
                    offsets,
                    k,
                )),
            Ok(SpecRequest::ListCommittedOffsets { keys }) => resp@ == crate::wire::list_json_of(
                old(store).list_committed_spec(keys),
            ) && *final(store) == *old(store),
        },
{
    match parse_request(line) {
        Err(_) => String::new(),
        Ok(Request::Send { key, msg }) => {
            let off = store.send(key, msg);
            format_decimal(off)
        },
        Ok(Request::Poll { offsets }) => {
            let results = store.poll(&offsets);
            proof {
                assert(crate::wire::poll_entries_view(results@) =~= poll_results(
                    *store,
                    pairs_view(offsets@),
                ));
            }
            crate::wire::poll_response_json(&results)
        },
        Ok(Request::CommitOffsets { offsets }) => {
            store.commit_offsets(&offsets);
            String::new()
        },
        Ok(Request::ListCommittedOffsets { keys }) => {
            let results = store.list_committed_offsets(&keys);
            crate::wire::list_response_json(&results)
        },
    }
}

} // verus!
