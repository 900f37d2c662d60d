//! What the parser makes of well-formed commands: each command of the
//! protocol, written as the protocol asks, parses as itself.

use vstd::prelude::*;

use crate::commands::CommandView;
use crate::parser::{
    all_digits, connect_opts_of, decimal_value, is_blank, is_digit, lemma_first_token,
    lemma_split_skips_blanks, same_letter, scan, split_spec, uint_spec, Outcome, ParseError,
    ParserModel, ParserState,
};
use crate::text::{decimal_spec, utf8_text};

verus! {

/// The characters that an argument line makes of `bytes`: each byte is the
/// character with that code.
pub open spec fn chars_of(bytes: Seq<u8>) -> Seq<char> {
    Seq::new(bytes.len(), |i: int| bytes[i] as char)
}

/// Whether `bytes` spell the keyword `word`, given in capitals, with each
/// letter in either case.
pub open spec fn spells(bytes: Seq<u8>, word: Seq<char>) -> bool {
    &&& bytes.len() == word.len()
    &&& forall|i: int| 0 <= i < word.len() ==> same_letter(#[trigger] bytes[i] as char, word[i])
}

/// One or more spaces or tabs.
pub open spec fn blanks(bytes: Seq<u8>) -> bool {
    &&& bytes.len() > 0
    &&& forall|i: int| 0 <= i < bytes.len() ==> is_blank(#[trigger] bytes[i] as char)
}

/// Whether `bytes` hold neither a carriage return nor a line feed.
pub open spec fn one_line(bytes: Seq<u8>) -> bool {
    forall|i: int| 0 <= i < bytes.len() ==> #[trigger] bytes[i] != 13 && bytes[i] != 10
}

/// One or more bytes, none of them a blank, a carriage return or a line
/// feed: an argument.
pub open spec fn token(bytes: Seq<u8>) -> bool {
    &&& bytes.len() > 0
    &&& one_line(bytes)
    &&& forall|i: int| 0 <= i < bytes.len() ==> !is_blank(#[trigger] bytes[i] as char)
}

/// The end of a line: a carriage return and a line feed.
pub open spec fn line_end() -> Seq<u8> {
    seq![13u8, 10u8]
}

/// The four states in which the parser reads an argument line.
pub open spec fn reads_line(state: ParserState) -> bool {
    ||| state == ParserState::ConnectArg
    ||| state == ParserState::PubArg
    ||| state == ParserState::SubArg
    ||| state == ParserState::UnsubArg
}

/// Over bytes that are neither a carriage return nor a line feed, a parser
/// that reads an argument line only adds them to the line.
proof fn lemma_scan_line(m: ParserModel, buf: Seq<u8>, from: int, to: int)
    requires
        reads_line(m.state),
        0 <= from <= to <= buf.len(),
        one_line(buf.subrange(from, to)),
    ensures
        scan(m, buf, from) == scan(
            ParserModel { arg: m.arg + chars_of(buf.subrange(from, to)), ..m },
            buf,
            to,
        ),
    decreases to - from,
{
    if from < to {
        let line = buf.subrange(from, to);
        assert(line[0] == buf[from]);
        let next = m.push_arg(buf[from] as char);
        assert forall|i: int| 0 <= i < to - from - 1 implies #[trigger] buf.subrange(
            from + 1,
            to,
        )[i] != 13 && buf.subrange(from + 1, to)[i] != 10 by {
            assert(line[i + 1] == buf.subrange(from + 1, to)[i]);
        }
        lemma_scan_line(next, buf, from + 1, to);
        assert(next.arg + chars_of(buf.subrange(from + 1, to)) =~= m.arg + chars_of(line));
    }
}

/// Over bytes that are no carriage return, a parser that reads a payload
/// only adds them to the payload, as long as they fit the size given.
proof fn lemma_scan_payload(m: ParserModel, buf: Seq<u8>, from: int, to: int)
    requires
        m.state == ParserState::PubMsg,
        0 <= from <= to <= buf.len(),
        forall|i: int| from <= i < to ==> #[trigger] buf[i] != 13,
        m.payload.len() + (to - from) <= m.size,
    ensures
        scan(m, buf, from) == scan(
            ParserModel { payload: m.payload + buf.subrange(from, to), ..m },
            buf,
            to,
        ),
    decreases to - from,
{
    if from < to {
        let next = m.push_payload(buf[from]);
        lemma_scan_payload(next, buf, from + 1, to);
        assert(next.payload + buf.subrange(from + 1, to) =~= m.payload + buf.subrange(from, to));
    }
}

/// A line of two arguments, parted by blanks and with or without blanks
/// before the first, splits into the two.
pub proof fn lemma_split_two(
    lead: Seq<char>,
    first: Seq<char>,
    gap: Seq<char>,
    second: Seq<char>,
)
    requires
        forall|i: int| 0 <= i < lead.len() ==> is_blank(#[trigger] lead[i]),
        first.len() > 0,
        forall|i: int| 0 <= i < first.len() ==> !is_blank(#[trigger] first[i]),
        gap.len() > 0,
        forall|i: int| 0 <= i < gap.len() ==> is_blank(#[trigger] gap[i]),
        second.len() > 0,
        forall|i: int| 0 <= i < second.len() ==> !is_blank(#[trigger] second[i]),
    ensures
        split_spec(lead + first + gap + second) == seq![first, second],
{
    let line = lead + first + gap + second;
    let tail = first + gap + second;
    lemma_split_skips_blanks(line, lead.len() as int);
    assert(line.skip(lead.len() as int) =~= tail);
    lemma_first_token(tail, first.len() as int);
    assert(tail.take(first.len() as int) =~= first);
    assert(tail.skip(first.len() as int) =~= gap + second);
    lemma_split_one(gap, second);
}

/// A line of one argument, with or without blanks before it, splits into
/// that argument.
pub proof fn lemma_split_one(lead: Seq<char>, only: Seq<char>)
    requires
        forall|i: int| 0 <= i < lead.len() ==> is_blank(#[trigger] lead[i]),
        only.len() > 0,
        forall|i: int| 0 <= i < only.len() ==> !is_blank(#[trigger] only[i]),
    ensures
        split_spec(lead + only) == seq![only],
{
    let line = lead + only;
    lemma_split_skips_blanks(line, lead.len() as int);
    assert(line.skip(lead.len() as int) =~= only);
    lemma_first_token(only, only.len() as int);
    assert(only.take(only.len() as int) =~= only);
}

/// A parser that starts afresh reads the keyword `CONNECT`, in either case,
/// letter by letter.
proof fn lemma_scan_connect(buf: Seq<u8>)
    requires
        buf.len() >= 7,
        spells(buf.subrange(0, 7), seq!['C', 'O', 'N', 'N', 'E', 'C', 'T']),
    ensures
        scan(ParserModel::fresh(), buf, 0) == scan(
            ParserModel::fresh().goto(ParserState::OpConnect),
            buf,
            7,
        ),
{
    let word = buf.subrange(0, 7);
    let at = |state: ParserState| ParserModel::fresh().goto(state);
    assert(word[0] == buf[0]);
    assert(word[1] == buf[1]);
    assert(word[2] == buf[2]);
    assert(word[3] == buf[3]);
    assert(word[4] == buf[4]);
    assert(word[5] == buf[5]);
    assert(word[6] == buf[6]);
    assert(scan(ParserModel::fresh(), buf, 0) == scan(at(ParserState::OpC), buf, 1));
    assert(scan(at(ParserState::OpC), buf, 1) == scan(at(ParserState::OpCo), buf, 2));
    assert(scan(at(ParserState::OpCo), buf, 2) == scan(at(ParserState::OpCon), buf, 3));
    assert(scan(at(ParserState::OpCon), buf, 3) == scan(at(ParserState::OpConn), buf, 4));
    assert(scan(at(ParserState::OpConn), buf, 4) == scan(at(ParserState::OpConne), buf, 5));
    assert(scan(at(ParserState::OpConne), buf, 5) == scan(at(ParserState::OpConnec), buf, 6));
    assert(scan(at(ParserState::OpConnec), buf, 6) == scan(at(ParserState::OpConnect), buf, 7));
}

/// A parser that starts afresh reads the keyword `PING`, in either case,
/// letter by letter.
proof fn lemma_scan_ping(buf: Seq<u8>)
    requires
        buf.len() >= 4,
        spells(buf.subrange(0, 4), seq!['P', 'I', 'N', 'G']),
    ensures
        scan(ParserModel::fresh(), buf, 0) == scan(
            ParserModel::fresh().goto(ParserState::OpPing),
            buf,
            4,
        ),
{
    let word = buf.subrange(0, 4);
    let at = |state: ParserState| ParserModel::fresh().goto(state);
    assert(word[0] == buf[0]);
    assert(word[1] == buf[1]);
    assert(word[2] == buf[2]);
    assert(word[3] == buf[3]);
    assert(scan(ParserModel::fresh(), buf, 0) == scan(at(ParserState::OpP), buf, 1));
    assert(scan(at(ParserState::OpP), buf, 1) == scan(at(ParserState::OpPi), buf, 2));
    assert(scan(at(ParserState::OpPi), buf, 2) == scan(at(ParserState::OpPin), buf, 3));
    assert(scan(at(ParserState::OpPin), buf, 3) == scan(at(ParserState::OpPing), buf, 4));
}

/// A parser that starts afresh reads the keyword `PONG`, in either case,
/// letter by letter.
proof fn lemma_scan_pong(buf: Seq<u8>)
    requires
        buf.len() >= 4,
        spells(buf.subrange(0, 4), seq!['P', 'O', 'N', 'G']),
    ensures
        scan(ParserModel::fresh(), buf, 0) == scan(
            ParserModel::fresh().goto(ParserState::OpPong),
            buf,
            4,
        ),
{
    let word = buf.subrange(0, 4);
    let at = |state: ParserState| ParserModel::fresh().goto(state);
    assert(word[0] == buf[0]);
    assert(word[1] == buf[1]);
    assert(word[2] == buf[2]);
    assert(word[3] == buf[3]);
    assert(scan(ParserModel::fresh(), buf, 0) == scan(at(ParserState::OpP), buf, 1));
    assert(scan(at(ParserState::OpP), buf, 1) == scan(at(ParserState::OpPo), buf, 2));
    assert(scan(at(ParserState::OpPo), buf, 2) == scan(at(ParserState::OpPon), buf, 3));
    assert(scan(at(ParserState::OpPon), buf, 3) == scan(at(ParserState::OpPong), buf, 4));
}

/// A parser that starts afresh reads the keyword `PUB`, in either case,
/// letter by letter.
proof fn lemma_scan_pub(buf: Seq<u8>)
    requires
        buf.len() >= 3,
        spells(buf.subrange(0, 3), seq!['P', 'U', 'B']),
    ensures
        scan(ParserModel::fresh(), buf, 0) == scan(
            ParserModel::fresh().goto(ParserState::OpPub),
            buf,
            3,
        ),
{
    let word = buf.subrange(0, 3);
    let at = |state: ParserState| ParserModel::fresh().goto(state);
    assert(word[0] == buf[0]);
    assert(word[1] == buf[1]);
    assert(word[2] == buf[2]);
    assert(scan(ParserModel::fresh(), buf, 0) == scan(at(ParserState::OpP), buf, 1));
    assert(scan(at(ParserState::OpP), buf, 1) == scan(at(ParserState::OpPu), buf, 2));
    assert(scan(at(ParserState::OpPu), buf, 2) == scan(at(ParserState::OpPub), buf, 3));
}

/// A parser that starts afresh reads the keyword `SUB`, in either case,
/// letter by letter.
proof fn lemma_scan_sub(buf: Seq<u8>)
    requires
        buf.len() >= 3,
        spells(buf.subrange(0, 3), seq!['S', 'U', 'B']),
    ensures
        scan(ParserModel::fresh(), buf, 0) == scan(
            ParserModel::fresh().goto(ParserState::OpSub),
            buf,
            3,
        ),
{
    let word = buf.subrange(0, 3);
    let at = |state: ParserState| ParserModel::fresh().goto(state);
    assert(word[0] == buf[0]);
    assert(word[1] == buf[1]);
    assert(word[2] == buf[2]);
    assert(scan(ParserModel::fresh(), buf, 0) == scan(at(ParserState::OpS), buf, 1));
    assert(scan(at(ParserState::OpS), buf, 1) == scan(at(ParserState::OpSu), buf, 2));
    assert(scan(at(ParserState::OpSu), buf, 2) == scan(at(ParserState::OpSub), buf, 3));
}

/// A parser that starts afresh reads the keyword `UNSUB`, in either case,
/// letter by letter.
proof fn lemma_scan_unsub(buf: Seq<u8>)
    requires
        buf.len() >= 5,
        spells(buf.subrange(0, 5), seq!['U', 'N', 'S', 'U', 'B']),
    ensures
        scan(ParserModel::fresh(), buf, 0) == scan(
            ParserModel::fresh().goto(ParserState::OpUnsub),
            buf,
            5,
        ),
{
    let word = buf.subrange(0, 5);
    let at = |state: ParserState| ParserModel::fresh().goto(state);
    assert(word[0] == buf[0]);
    assert(word[1] == buf[1]);
    assert(word[2] == buf[2]);
    assert(word[3] == buf[3]);
    assert(word[4] == buf[4]);
    assert(scan(ParserModel::fresh(), buf, 0) == scan(at(ParserState::OpU), buf, 1));
    assert(scan(at(ParserState::OpU), buf, 1) == scan(at(ParserState::OpUn), buf, 2));
    assert(scan(at(ParserState::OpUn), buf, 2) == scan(at(ParserState::OpUns), buf, 3));
    assert(scan(at(ParserState::OpUns), buf, 3) == scan(at(ParserState::OpUnsu), buf, 4));
    assert(scan(at(ParserState::OpUnsu), buf, 4) == scan(at(ParserState::OpUnsub), buf, 5));
}

/// The characters of two runs of bytes, one after the other.
proof fn lemma_chars_of_add(a: Seq<u8>, b: Seq<u8>)
    ensures
        chars_of(a + b) == chars_of(a) + chars_of(b),
{
}

/// `PING` and a line end, whatever follows, parse as `Ping`, and the
/// parse ends with the last byte of the line end.
pub proof fn lemma_parse_ping(keyword: Seq<u8>, rest: Seq<u8>)
    requires
        spells(keyword, seq!['P', 'I', 'N', 'G']),
    ensures
        ({
            let frame = keyword + line_end();
            scan(ParserModel::fresh(), frame + rest, 0) == Outcome::Finished(
                Ok(CommandView::Ping),
                frame.len() - 1,
            )
        }),
{
    let buf = keyword + line_end() + rest;
    lemma_scan_ping(buf);
    let m = ParserModel::fresh().goto(ParserState::OpPing);
    assert(scan(m, buf, 4) == scan(m, buf, 5));
}

/// `PONG` and a line end, whatever follows, parse as `Pong`, and the
/// parse ends with the last byte of the line end.
pub proof fn lemma_parse_pong(keyword: Seq<u8>, rest: Seq<u8>)
    requires
        spells(keyword, seq!['P', 'O', 'N', 'G']),
    ensures
        ({
            let frame = keyword + line_end();
            scan(ParserModel::fresh(), frame + rest, 0) == Outcome::Finished(
                Ok(CommandView::Pong),
                frame.len() - 1,
            )
        }),
{
    let buf = keyword + line_end() + rest;
    lemma_scan_pong(buf);
    let m = ParserModel::fresh().goto(ParserState::OpPong);
    assert(scan(m, buf, 4) == scan(m, buf, 5));
}

/// What the parser makes of an argument line: after a keyword that takes
/// arguments and one blank, the bytes of `line`, none of them a carriage
/// return or a line feed, and a line end bring the parser to the end of a
/// line that holds the characters of `line`.
proof fn lemma_scan_arguments(
    buf: Seq<u8>,
    at: int,
    keyword: ParserState,
    reading: ParserState,
    line: Seq<u8>,
)
    requires
        0 <= at,
        at + 1 + line.len() + 2 <= buf.len(),
        is_blank(buf[at] as char),
        one_line(line),
        buf.subrange(at + 1, at + 1 + line.len()) == line,
        buf[at + 1 + line.len()] == 13,
        ({
            ||| keyword == ParserState::OpConnect && reading == ParserState::ConnectArg
            ||| keyword == ParserState::OpPub && reading == ParserState::PubArg
            ||| keyword == ParserState::OpSub && reading == ParserState::SubArg
            ||| keyword == ParserState::OpUnsub && reading == ParserState::UnsubArg
        }),
    ensures
        scan(ParserModel::fresh().goto(keyword), buf, at) == scan(
            ParserModel { arg: chars_of(line), ..ParserModel::fresh().goto(reading) },
            buf,
            at + 1 + line.len() + 1,
        ),
{
    let open = ParserModel::fresh().goto(reading);
    let end: int = at + 1 + line.len() as int;
    lemma_scan_line(open, buf, at + 1, end);
}

/// `SUB`, a subject and a subscription id, parted by blanks, and a line
/// end, whatever follows, parse as that subscription, and the parse ends
/// with the last byte of the line end.
pub proof fn lemma_parse_sub(
    keyword: Seq<u8>,
    gap: Seq<u8>,
    subject: Seq<u8>,
    gap2: Seq<u8>,
    id: Seq<u8>,
    rest: Seq<u8>,
)
    requires
        spells(keyword, seq!['S', 'U', 'B']),
        blanks(gap),
        token(subject),
        blanks(gap2),
        token(id),
    ensures
        ({
            let frame = keyword + gap + subject + gap2 + id + line_end();
            scan(ParserModel::fresh(), frame + rest, 0) == Outcome::Finished(
                Ok(CommandView::Sub { subject: chars_of(subject), id: chars_of(id) }),
                frame.len() - 1,
            )
        }),
{
    let frame = keyword + gap + subject + gap2 + id + line_end();
    let buf = frame + rest;
    let line = gap.drop_first() + subject + gap2 + id;
    let end: int = 4 + line.len() as int;
    lemma_scan_sub(buf);
    assert(buf.subrange(4, end) =~= line);
    lemma_scan_arguments(buf, 3, ParserState::OpSub, ParserState::SubArg, line);
    lemma_chars_of_add(gap.drop_first(), subject);
    lemma_chars_of_add(gap.drop_first() + subject, gap2);
    lemma_chars_of_add(gap.drop_first() + subject + gap2, id);
    lemma_split_two(
        chars_of(gap.drop_first()),
        chars_of(subject),
        chars_of(gap2),
        chars_of(id),
    );
}

/// `UNSUB`, blanks, a subscription id and a line end, whatever follows,
/// parse as that unsubscription, and the parse ends with the last byte of
/// the line end.
pub proof fn lemma_parse_unsub(keyword: Seq<u8>, gap: Seq<u8>, id: Seq<u8>, rest: Seq<u8>)
    requires
        spells(keyword, seq!['U', 'N', 'S', 'U', 'B']),
        blanks(gap),
        token(id),
    ensures
        ({
            let frame = keyword + gap + id + line_end();
            scan(ParserModel::fresh(), frame + rest, 0) == Outcome::Finished(
                Ok(CommandView::Unsub { id: chars_of(id) }),
                frame.len() - 1,
            )
        }),
{
    let frame = keyword + gap + id + line_end();
    let buf = frame + rest;
    let line = gap.drop_first() + id;
    let end: int = 6 + line.len() as int;
    lemma_scan_unsub(buf);
    assert(buf.subrange(6, end) =~= line);
    lemma_scan_arguments(buf, 5, ParserState::OpUnsub, ParserState::UnsubArg, line);
    lemma_chars_of_add(gap.drop_first(), id);
    lemma_split_one(chars_of(gap.drop_first()), chars_of(id));
}

/// `CONNECT`, a blank, an argument on one line and a line end, whatever
/// follows, parse as the connection that the argument asks for, or as
/// invalid input where the argument is refused; either way the parse ends
/// with the last byte of the line end.
pub proof fn lemma_parse_connect(keyword: Seq<u8>, blank: u8, arg: Seq<u8>, rest: Seq<u8>)
    requires
        spells(keyword, seq!['C', 'O', 'N', 'N', 'E', 'C', 'T']),
        is_blank(blank as char),
        one_line(arg),
    ensures
        ({
            let frame = keyword + seq![blank] + arg + line_end();
            scan(ParserModel::fresh(), frame + rest, 0) == Outcome::Finished(
                match connect_opts_of(chars_of(arg)) {
                    Some(opts) => Ok(CommandView::Connect(opts)),
                    None => Err(ParseError::InvalidInput),
                },
                frame.len() - 1,
            )
        }),
{
    let frame = keyword + seq![blank] + arg + line_end();
    let buf = frame + rest;
    let end: int = 8 + arg.len() as int;
    lemma_scan_connect(buf);
    assert(buf.subrange(8, end) =~= arg);
    lemma_scan_arguments(buf, 7, ParserState::OpConnect, ParserState::ConnectArg, arg);
}

/// `PUB`, a subject and a size, parted by blanks, a line end, a payload of
/// that size without a carriage return, and a carriage return, whatever
/// follows, parse as the publication of the text that the payload
/// encodes, or as invalid input where the payload is not UTF-8; either way
/// the parse ends with the carriage return after the payload.
pub proof fn lemma_parse_pub(
    keyword: Seq<u8>,
    gap: Seq<u8>,
    subject: Seq<u8>,
    gap2: Seq<u8>,
    size: Seq<u8>,
    payload: Seq<u8>,
    rest: Seq<u8>,
)
    requires
        spells(keyword, seq!['P', 'U', 'B']),
        blanks(gap),
        token(subject),
        blanks(gap2),
        size.len() > 0,
        all_digits(chars_of(size)),
        decimal_value(chars_of(size)) == payload.len(),
        payload.len() <= u32::MAX,
        forall|i: int| 0 <= i < payload.len() ==> #[trigger] payload[i] != 13,
    ensures
        ({
            let frame = keyword + gap + subject + gap2 + size + line_end() + payload + seq![13u8];
            scan(ParserModel::fresh(), frame + rest, 0) == Outcome::Finished(
                match utf8_text(payload) {
                    Some(msg) => Ok(CommandView::Pub { subject: chars_of(subject), msg }),
                    None => Err(ParseError::InvalidInput),
                },
                frame.len() - 1,
            )
        }),
{
    let frame = keyword + gap + subject + gap2 + size + line_end() + payload + seq![13u8];
    let buf = frame + rest;
    let line = gap.drop_first() + subject + gap2 + size;
    let end: int = 4 + line.len() as int;
    lemma_scan_pub(buf);
    assert(buf.subrange(4, end) =~= line);
    assert(one_line(line)) by {
        assert forall|i: int| 0 <= i < size.len() implies #[trigger] size[i] != 13 && size[i]
            != 10 by {
            assert(is_digit(chars_of(size)[i]));
        }
    }
    lemma_scan_arguments(buf, 3, ParserState::OpPub, ParserState::PubArg, line);
    let full = ParserModel {
        arg: chars_of(line),
        ..ParserModel::fresh().goto(ParserState::PubArg)
    };
    lemma_chars_of_add(gap.drop_first(), subject);
    lemma_chars_of_add(gap.drop_first() + subject, gap2);
    lemma_chars_of_add(gap.drop_first() + subject + gap2, size);
    lemma_split_two(
        chars_of(gap.drop_first()),
        chars_of(subject),
        chars_of(gap2),
        chars_of(size),
    );
    let args = seq![chars_of(subject), chars_of(size)];
    let header = ParserModel {
        state: ParserState::PubMsg,
        args,
        size: payload.len(),
        ..full
    };
    let last: int = end + 2 + payload.len() as int;
    assert(buf.subrange(end + 2, last) =~= payload);
    lemma_scan_payload(header, buf, end + 2, last);
}

/// A number written as a decimal numeral reads back as the same number.
pub proof fn lemma_decimal_reads_back(n: nat)
    ensures
        all_digits(decimal_spec(n)),
        decimal_value(decimal_spec(n)) == n,
        n <= u32::MAX ==> uint_spec(decimal_spec(n)) == Some(n as u32),
    decreases n,
{
    let numeral = decimal_spec(n);
    if n < 10 {
        assert(decimal_value(numeral.drop_last()) == 0);
    } else {
        lemma_decimal_reads_back(n / 10);
        assert(numeral.drop_last() =~= decimal_spec(n / 10));
    }
}

} // verus!
