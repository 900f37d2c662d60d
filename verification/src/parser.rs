//! The incremental parser of the clients' commands: a state machine that
//! takes its input byte by byte.

use vstd::prelude::*;
use vstd::string::StringExecFns;

use crate::commands::{ClientCommand, CommandView};
use crate::json::{lookup, lookup_spec, JsonKind};
use crate::text::{decode_utf8_text, string_from_chars, utf8_text};

verus! {

/// Where the parser stands within a command: at its start, after the
/// letters of a keyword read so far, within the argument line of a
/// keyword, or within the payload of a `PUB`.
#[derive(Debug, Clone, Copy, PartialEq, Eq, Structural)]
pub enum ParserState {
    OpStart,
    OpC,
    OpCo,
    OpCon,
    OpConn,
    OpConne,
    OpConnec,
    OpConnect,
    ConnectArg,
    OpP,
    OpPi,
    OpPin,
    OpPing,
    OpPo,
    OpPon,
    OpPong,
    OpPu,
    OpPub,
    PubArg,
    PubMsg,
    OpS,
    OpSu,
    OpSub,
    SubArg,
    OpU,
    OpUn,
    OpUns,
    OpUnsu,
    OpUnsub,
    UnsubArg,
}

/// Why the parser turned an input down.
#[non_exhaustive]
#[derive(Debug, Clone, Copy, PartialEq, Eq, Structural)]
pub enum ParseError {
    /// The input is no command of the protocol.
    InvalidInput,
    /// The text is no unsigned decimal number of 32 bits.
    NotAPositiveInt,
}

impl ParseError {
    /// The error in words.
    pub fn message(&self) -> (text: String)
        ensures
            text@ == (match *self {
                ParseError::InvalidInput => "invalid input"@,
                ParseError::NotAPositiveInt => "not a positive int"@,
            }),
    {
        match self {
            ParseError::InvalidInput => String::from_str("invalid input"),
            ParseError::NotAPositiveInt => String::from_str("not a positive int"),
        }
    }
}

/// The options that a client gives with `CONNECT`.
#[derive(Debug, Clone, Copy, PartialEq, Eq, Structural)]
pub struct ClientConnectOpts {
    pub verbose: bool,
}

impl Default for ClientConnectOpts {
    fn default() -> (opts: Self)
        ensures
            opts == (ClientConnectOpts { verbose: false }),
    {
        ClientConnectOpts { verbose: false }
    }
}

/// Space and tab, the two characters that part arguments.
pub open spec fn is_blank(c: char) -> bool {
    c == ' ' || c == '\t'
}

/// The length of the longest prefix of `s` that holds no blank.
pub open spec fn token_len(s: Seq<char>) -> nat
    decreases s.len(),
{
    if s.len() == 0 || is_blank(s[0]) {
        0
    } else {
        1 + token_len(s.drop_first())
    }
}

/// The arguments of a line: its maximal runs of characters other than
/// blanks, from left to right.
pub open spec fn split_spec(s: Seq<char>) -> Seq<Seq<char>>
    decreases s.len(),
    via split_spec_decreases
{
    if s.len() == 0 {
        Seq::empty()
    } else if is_blank(s[0]) {
        split_spec(s.drop_first())
    } else {
        seq![s.take(token_len(s) as int)] + split_spec(s.skip(token_len(s) as int))
    }
}

#[via_fn]
proof fn split_spec_decreases(s: Seq<char>) {
    if s.len() != 0 && !is_blank(s[0]) {
        lemma_token_len_bound(s);
    }
}

/// The first token is no longer than the line.
pub proof fn lemma_token_len_bound(s: Seq<char>)
    ensures
        token_len(s) <= s.len(),
    decreases s.len(),
{
    if s.len() != 0 && !is_blank(s[0]) {
        lemma_token_len_bound(s.drop_first());
    }
}

/// The character sequences of a list of arguments.
pub open spec fn views(args: Seq<Vec<char>>) -> Seq<Seq<char>> {
    Seq::new(args.len(), |i: int| args[i]@)
}

/// A run of `n` characters without a blank, followed by a blank or by the
/// end, is exactly the first token.
pub proof fn lemma_token_len(s: Seq<char>, n: int)
    requires
        0 <= n <= s.len(),
        forall|k: int| 0 <= k < n ==> !is_blank(#[trigger] s[k]),
        n == s.len() || is_blank(s[n]),
    ensures
        token_len(s) == n,
    decreases n,
{
    if n > 0 {
        let t = s.drop_first();
        lemma_token_len(t, n - 1);
    }
}

/// Leading blanks do not change the arguments.
pub proof fn lemma_split_skips_blanks(s: Seq<char>, n: int)
    requires
        0 <= n <= s.len(),
        forall|k: int| 0 <= k < n ==> is_blank(#[trigger] s[k]),
    ensures
        split_spec(s) == split_spec(s.skip(n)),
    decreases n,
{
    if n > 0 {
        let t = s.drop_first();
        lemma_split_skips_blanks(t, n - 1);
        assert(t.skip(n - 1) =~= s.skip(n));
    } else {
        assert(s.skip(0) =~= s);
    }
}

/// Splits `buf` at blanks into its arguments.
pub fn split_arg(buf: &[char]) -> (result: Vec<Vec<char>>)
    ensures
        views(result@) == split_spec(buf@),
{
    let mut result: Vec<Vec<char>> = Vec::new();
    let mut start: Option<usize> = None;
    let mut token: Vec<char> = Vec::new();
    let mut i: usize = 0;
    assert(buf@.skip(0) =~= buf@);
    while i < buf.len()
        invariant
            i <= buf.len(),
            match start {
                Some(from) => {
                    &&& from < i
                    &&& token@ == buf@.subrange(from as int, i as int)
                    &&& forall|k: int| from <= k < i ==> !is_blank(#[trigger] buf@[k])
                    &&& views(result@) + split_spec(buf@.skip(from as int)) == split_spec(buf@)
                },
                None => {
                    &&& token@.len() == 0
                    &&& views(result@) + split_spec(buf@.skip(i as int)) == split_spec(buf@)
                },
            },
        decreases buf.len() - i,
    {
        let c = buf[i];
        if c == ' ' || c == '\t' {
            if let Some(from) = start {
                proof {
                    lemma_first_token(buf@.skip(from as int), i - from);
                    assert(buf@.skip(from as int).take(i - from) =~= token@);
                    assert(buf@.skip(from as int).skip(i - from) =~= buf@.skip(i as int));
                }
                result.push(token);
                token = Vec::new();
                start = None;
            }
            proof {
                let rest = buf@.skip(i as int);
                assert(rest.drop_first() =~= buf@.skip(i + 1));
            }
        } else {
            if start.is_none() {
                start = Some(i);
            }
            token.push(c);
        }
        i += 1;
    }
    if let Some(from) = start {
        proof {
            lemma_first_token(buf@.skip(from as int), i - from);
            assert(buf@.skip(from as int).take(i - from) =~= token@);
        }
        result.push(token);
    }
    result
}

/// A line that starts with a token of `n` characters splits into that
/// token and the arguments of what follows it.
pub proof fn lemma_first_token(s: Seq<char>, n: int)
    requires
        0 < n <= s.len(),
        forall|k: int| 0 <= k < n ==> !is_blank(#[trigger] s[k]),
        n == s.len() || is_blank(s[n]),
    ensures
        split_spec(s) == seq![s.take(n)] + split_spec(s.skip(n)),
{
    lemma_token_len(s, n);
}

/// The decimal digits `0` to `9`.
pub open spec fn is_digit(c: char) -> bool {
    '0' <= c && c <= '9'
}

/// Whether every character of `s` is a decimal digit.
pub open spec fn all_digits(s: Seq<char>) -> bool {
    forall|k: int| 0 <= k < s.len() ==> is_digit(#[trigger] s[k])
}

/// The number that the digits of `s` spell in base ten; the empty
/// sequence spells zero.
pub open spec fn decimal_value(s: Seq<char>) -> nat
    decreases s.len(),
{
    if s.len() == 0 {
        0
    } else {
        (decimal_value(s.drop_last()) * 10 + (s.last() as u32 - '0' as u32)) as nat
    }
}

/// What [`parse_uint`] makes of `s`: its value, where `s` holds digits only
/// and the value fits 32 bits.
pub open spec fn uint_spec(s: Seq<char>) -> Option<u32> {
    if all_digits(s) && decimal_value(s) <= u32::MAX {
        Some(decimal_value(s) as u32)
    } else {
        None
    }
}

/// A sequence of digits spells at least what any of its prefixes spells.
pub proof fn lemma_decimal_prefix(s: Seq<char>, n: int)
    requires
        all_digits(s),
        0 <= n <= s.len(),
    ensures
        decimal_value(s.take(n)) <= decimal_value(s),
    decreases s.len() - n,
{
    if n == s.len() {
        assert(s.take(n) =~= s);
    } else {
        lemma_decimal_prefix(s, n + 1);
        assert(s.take(n + 1).drop_last() =~= s.take(n));
    }
}

/// Reads `chars` as an unsigned decimal number of 32 bits.
pub fn parse_uint(chars: &[char]) -> (result: Result<u32, ParseError>)
    ensures
        result == match uint_spec(chars@) {
            Some(n) => Ok::<u32, ParseError>(n),
            None => Err::<u32, ParseError>(ParseError::NotAPositiveInt),
        },
{
    let mut number: u32 = 0;
    let mut i: usize = 0;
    while i < chars.len()
        invariant
            i <= chars.len(),
            all_digits(chars@.take(i as int)),
            number == decimal_value(chars@.take(i as int)),
        decreases chars.len() - i,
    {
        let c = chars[i];
        if !('0' <= c && c <= '9') {
            return Err(ParseError::NotAPositiveInt);
        }
        let digit: u32 = c as u32 - '0' as u32;
        proof {
            let next = chars@.take(i + 1);
            assert(next.drop_last() =~= chars@.take(i as int));
            if all_digits(chars@) {
                lemma_decimal_prefix(chars@, i + 1);
            }
        }
        if number > (u32::MAX - digit) / 10 {
            return Err(ParseError::NotAPositiveInt);
        }
        number = number * 10 + digit;
        i += 1;
    }
    assert(chars@.take(i as int) =~= chars@);
    Ok(number)
}

/// The options that a `CONNECT` argument gives, from what a lookup of its
/// `verbose` member found: a missing member leaves the option off, a boolean
/// sets it, and anything else is refused, as is an argument that is no JSON
/// object.
pub open spec fn connect_opts_spec(found: Option<Option<JsonKind>>) -> Option<ClientConnectOpts> {
    match found {
        Some(None) => Some(ClientConnectOpts { verbose: false }),
        Some(Some(JsonKind::Bool(verbose))) => Some(ClientConnectOpts { verbose }),
        _ => None,
    }
}

/// The options that the `CONNECT` argument `arg` gives, if it is accepted.
pub open spec fn connect_opts_of(arg: Seq<char>) -> Option<ClientConnectOpts> {
    connect_opts_spec(lookup_spec(arg, "verbose"@))
}

/// Decides on the options of a `CONNECT` from what a lookup of the
/// `verbose` member of its argument found.
pub fn connect_opts_from(found: Option<Option<JsonKind>>) -> (opts: Option<ClientConnectOpts>)
    ensures
        opts == connect_opts_spec(found),
{
    match found {
        Some(None) => Some(ClientConnectOpts { verbose: false }),
        Some(Some(JsonKind::Bool(verbose))) => Some(ClientConnectOpts { verbose }),
        _ => None,
    }
}

/// Reads the argument of a `CONNECT`.
pub fn connect_opts(arg: &str) -> (opts: Option<ClientConnectOpts>)
    ensures
        opts == connect_opts_of(arg@),
{
    connect_opts_from(lookup(arg, "verbose"))
}

/// The parser's state as plain values.
pub struct ParserModel {
    /// Where the parser stands within a command.
    pub state: ParserState,
    /// The characters of the argument line read so far.
    pub arg: Seq<char>,
    /// The payload bytes read so far.
    pub payload: Seq<u8>,
    /// The payload size that a `PUB` line gave.
    pub size: nat,
    /// The arguments of a `PUB` line, once it is complete.
    pub args: Seq<Seq<char>>,
}

impl ParserModel {
    /// The state of a parser that has read nothing of a command.
    pub open spec fn fresh() -> ParserModel {
        ParserModel {
            state: ParserState::OpStart,
            arg: Seq::empty(),
            payload: Seq::empty(),
            size: 0,
            args: Seq::empty(),
        }
    }

    /// The subject that the `PUB` line gave: the first of its arguments.
    pub open spec fn subject(self) -> Seq<char> {
        if self.args.len() > 0 {
            self.args[0]
        } else {
            Seq::empty()
        }
    }

    /// This state, moved on to `state`.
    pub open spec fn goto(self, state: ParserState) -> ParserModel {
        ParserModel { state, ..self }
    }

    /// This state, with `c` added to the argument line.
    pub open spec fn push_arg(self, c: char) -> ParserModel {
        ParserModel { arg: self.arg.push(c), ..self }
    }

    /// This state, with `b` added to the payload.
    pub open spec fn push_payload(self, b: u8) -> ParserModel {
        ParserModel { payload: self.payload.push(b), ..self }
    }
}

/// What one byte does to the parser: it moves on, or a command or an error
/// is complete.
pub enum Step {
    More(ParserModel),
    Done(Result<CommandView, ParseError>),
}

/// Whether `c` is the capital letter `upper` or its small form.
pub open spec fn same_letter(c: char, upper: char) -> bool {
    c == upper || c as u32 == upper as u32 + 32
}

/// A keyword letter: `upper`, in either case, leads to `next`; any other
/// character is an error.
pub open spec fn step_letter(m: ParserModel, c: char, upper: char, next: ParserState) -> Step {
    if same_letter(c, upper) {
        Step::More(m.goto(next))
    } else {
        Step::Done(Err(ParseError::InvalidInput))
    }
}

/// The blank after a keyword that takes arguments.
pub open spec fn step_blank(m: ParserModel, c: char, next: ParserState) -> Step {
    if is_blank(c) {
        Step::More(m.goto(next))
    } else {
        Step::Done(Err(ParseError::InvalidInput))
    }
}

/// The end of a keyword that takes no argument: a line feed completes
/// `command`, a carriage return is passed over.
pub open spec fn step_bare(m: ParserModel, c: char, command: CommandView) -> Step {
    if c == '\n' {
        Step::Done(Ok(command))
    } else if c == '\r' {
        Step::More(m)
    } else {
        Step::Done(Err(ParseError::InvalidInput))
    }
}

/// A character of an argument line: a line feed ends the line with
/// `at_end`, a carriage return is passed over, any other character joins
/// the line.
pub open spec fn step_line(m: ParserModel, c: char, at_end: Step) -> Step {
    if c == '\n' {
        at_end
    } else if c == '\r' {
        Step::More(m)
    } else {
        Step::More(m.push_arg(c))
    }
}

/// The end of a `CONNECT` line.
pub open spec fn end_connect(m: ParserModel) -> Step {
    match connect_opts_of(m.arg) {
        Some(opts) => Step::Done(Ok(CommandView::Connect(opts))),
        None => Step::Done(Err(ParseError::InvalidInput)),
    }
}

/// The end of a `PUB` line: with a subject and a size the payload follows.
pub open spec fn end_pub(m: ParserModel) -> Step {
    let args = split_spec(m.arg);
    if args.len() != 2 {
        Step::Done(Err(ParseError::InvalidInput))
    } else {
        match uint_spec(args[1]) {
            Some(size) => Step::More(
                ParserModel { state: ParserState::PubMsg, args, size: size as nat, ..m },
            ),
            None => Step::Done(Err(ParseError::InvalidInput)),
        }
    }
}

/// The end of a `SUB` line.
pub open spec fn end_sub(m: ParserModel) -> Step {
    let args = split_spec(m.arg);
    if args.len() != 2 {
        Step::Done(Err(ParseError::InvalidInput))
    } else {
        Step::Done(Ok(CommandView::Sub { subject: args[0], id: args[1] }))
    }
}

/// The end of an `UNSUB` line.
pub open spec fn end_unsub(m: ParserModel) -> Step {
    let args = split_spec(m.arg);
    if args.len() != 1 {
        Step::Done(Err(ParseError::InvalidInput))
    } else {
        Step::Done(Ok(CommandView::Unsub { id: args[0] }))
    }
}

/// A byte after a `PUB` line: a carriage return ends the payload, which
/// must then have the size given and be UTF-8; any other byte joins the
/// payload, unless the payload is full.
pub open spec fn step_payload(m: ParserModel, b: u8) -> Step {
    if b as char == '\r' {
        if m.payload.len() != m.size {
            Step::Done(Err(ParseError::InvalidInput))
        } else {
            match utf8_text(m.payload) {
                Some(msg) => Step::Done(Ok(CommandView::Pub { subject: m.subject(), msg })),
                None => Step::Done(Err(ParseError::InvalidInput)),
            }
        }
    } else if m.payload.len() >= m.size {
        Step::Done(Err(ParseError::InvalidInput))
    } else {
        Step::More(m.push_payload(b))
    }
}

/// The first byte of a command.
pub open spec fn step_start(m: ParserModel, c: char) -> Step {
    if same_letter(c, 'C') {
        Step::More(m.goto(ParserState::OpC))
    } else if same_letter(c, 'P') {
        Step::More(m.goto(ParserState::OpP))
    } else if same_letter(c, 'S') {
        Step::More(m.goto(ParserState::OpS))
    } else if same_letter(c, 'U') {
        Step::More(m.goto(ParserState::OpU))
    } else if c == '\r' || c == '\n' {
        Step::Done(Ok(CommandView::Noop))
    } else {
        Step::Done(Err(ParseError::InvalidInput))
    }
}

/// The byte after a `P`.
pub open spec fn step_p(m: ParserModel, c: char) -> Step {
    if same_letter(c, 'I') {
        Step::More(m.goto(ParserState::OpPi))
    } else if same_letter(c, 'O') {
        Step::More(m.goto(ParserState::OpPo))
    } else if same_letter(c, 'U') {
        Step::More(m.goto(ParserState::OpPu))
    } else {
        Step::Done(Err(ParseError::InvalidInput))
    }
}

/// What the byte `b` does to a parser in state `m`. Argument lines take
/// each byte as the character with that code.
pub open spec fn step(m: ParserModel, b: u8) -> Step {
    let c = b as char;
    match m.state {
        ParserState::OpStart => step_start(m, c),
        ParserState::OpC => step_letter(m, c, 'O', ParserState::OpCo),
        ParserState::OpCo => step_letter(m, c, 'N', ParserState::OpCon),
        ParserState::OpCon => step_letter(m, c, 'N', ParserState::OpConn),
        ParserState::OpConn => step_letter(m, c, 'E', ParserState::OpConne),
        ParserState::OpConne => step_letter(m, c, 'C', ParserState::OpConnec),
        ParserState::OpConnec => step_letter(m, c, 'T', ParserState::OpConnect),
        ParserState::OpConnect => step_blank(m, c, ParserState::ConnectArg),
        ParserState::ConnectArg => step_line(m, c, end_connect(m)),
        ParserState::OpP => step_p(m, c),
        ParserState::OpPi => step_letter(m, c, 'N', ParserState::OpPin),
        ParserState::OpPin => step_letter(m, c, 'G', ParserState::OpPing),
        ParserState::OpPing => step_bare(m, c, CommandView::Ping),
        ParserState::OpPo => step_letter(m, c, 'N', ParserState::OpPon),
        ParserState::OpPon => step_letter(m, c, 'G', ParserState::OpPong),
        ParserState::OpPong => step_bare(m, c, CommandView::Pong),
        ParserState::OpPu => step_letter(m, c, 'B', ParserState::OpPub),
        ParserState::OpPub => step_blank(m, c, ParserState::PubArg),
        ParserState::PubArg => step_line(m, c, end_pub(m)),
        ParserState::PubMsg => step_payload(m, b),
        ParserState::OpS => step_letter(m, c, 'U', ParserState::OpSu),
        ParserState::OpSu => step_letter(m, c, 'B', ParserState::OpSub),
        ParserState::OpSub => step_blank(m, c, ParserState::SubArg),
        ParserState::SubArg => step_line(m, c, end_sub(m)),
        ParserState::OpU => step_letter(m, c, 'N', ParserState::OpUn),
        ParserState::OpUn => step_letter(m, c, 'S', ParserState::OpUns),
        ParserState::OpUns => step_letter(m, c, 'U', ParserState::OpUnsu),
        ParserState::OpUnsu => step_letter(m, c, 'B', ParserState::OpUnsub),
        ParserState::OpUnsub => step_blank(m, c, ParserState::UnsubArg),
        ParserState::UnsubArg => step_line(m, c, end_unsub(m)),
    }
}

/// What a run of the parser over `buf` from index `from` comes to.
pub enum Outcome {
    /// The input ended within a command; the parser is left in this state.
    Pending(ParserModel),
    /// The byte at this index completed a command or an error.
    Finished(Result<CommandView, ParseError>, int),
}

/// Runs the parser over `buf` from index `from` until a byte completes a
/// command or an error, or the input ends.
pub open spec fn scan(m: ParserModel, buf: Seq<u8>, from: int) -> Outcome
    decreases buf.len() - from,
{
    if from < 0 || from >= buf.len() {
        Outcome::Pending(m)
    } else {
        match step(m, buf[from]) {
            Step::More(next) => scan(next, buf, from + 1),
            Step::Done(result) => Outcome::Finished(result, from),
        }
    }
}

/// A result of the parser with the command taken by its view.
pub open spec fn result_view(result: Result<ClientCommand, ParseError>) -> Result<
    CommandView,
    ParseError,
> {
    match result {
        Ok(command) => Ok(command@),
        Err(e) => Err(e),
    }
}

/// Whether a parser that went from `before` to `after` and gave `out`
/// did what `step` asks: on `More` nothing comes out and the state moves
/// on, on `Done` the result comes out and the parser starts afresh.
pub open spec fn follows(
    step: Step,
    after: ParserModel,
    out: Option<Result<ClientCommand, ParseError>>,
) -> bool {
    match step {
        Step::More(next) => out is None && after == next,
        Step::Done(result) => out is Some && result_view(out->0) == result && after
            == ParserModel::fresh(),
    }
}

/// The incremental parser of one connection.
pub struct ClientRequest {
    parser_state: ParserState,
    arg_buffer: Vec<char>,
    msg_buffer: Vec<u8>,
    msg_size: usize,
    args: Vec<Vec<char>>,
}

impl View for ClientRequest {
    type V = ParserModel;

    closed spec fn view(&self) -> ParserModel {
        ParserModel {
            state: self.parser_state,
            arg: self.arg_buffer@,
            payload: self.msg_buffer@,
            size: self.msg_size as nat,
            args: views(self.args@),
        }
    }
}

impl ClientRequest {
    /// A parser that has read nothing.
    pub fn new() -> (request: Self)
        ensures
            request@ == ParserModel::fresh(),
    {
        let request = Self {
            parser_state: ParserState::OpStart,
            arg_buffer: Vec::new(),
            msg_buffer: Vec::new(),
            msg_size: 0,
            args: Vec::new(),
        };
        assert(views(request.args@) =~= Seq::<Seq<char>>::empty());
        request
    }

    /// Where the parser stands within a command.
    pub fn state(&self) -> (state: ParserState)
        ensures
            state == self@.state,
    {
        self.parser_state
    }

    /// Forgets what was read of the current command.
    pub fn reset_state(&mut self)
        ensures
            final(self)@ == ParserModel::fresh(),
    {
        self.parser_state = ParserState::OpStart;
        self.arg_buffer.clear();
        self.msg_buffer.clear();
        self.args.clear();
        self.msg_size = 0;
        assert(views(self.args@) =~= Seq::<Seq<char>>::empty());
    }

    /// Gives up the current command.
    pub fn parse_error(&mut self) -> (result: Result<ClientCommand, ParseError>)
        ensures
            final(self)@ == ParserModel::fresh(),
            result == Err::<ClientCommand, ParseError>(ParseError::InvalidInput),
    {
        self.reset_state();
        Err(ParseError::InvalidInput)
    }

    /// Completes the current command.
    pub fn return_command(&mut self, command: ClientCommand) -> (result: Result<
        ClientCommand,
        ParseError,
    >)
        ensures
            final(self)@ == ParserModel::fresh(),
            result == Ok::<ClientCommand, ParseError>(command),
    {
        self.reset_state();
        Ok(command)
    }

    /// Takes a letter of a keyword.
    fn letter(&mut self, c: char, upper: char, next: ParserState) -> (out: Option<
        Result<ClientCommand, ParseError>,
    >)
        ensures
            follows(step_letter(old(self)@, c, upper, next), final(self)@, out),
    {
        if c == upper || c as u32 == upper as u32 + 32 {
            self.parser_state = next;
            None
        } else {
            Some(self.parse_error())
        }
    }

    /// Takes the blank after a keyword that has arguments.
    fn blank(&mut self, c: char, next: ParserState) -> (out: Option<
        Result<ClientCommand, ParseError>,
    >)
        ensures
            follows(step_blank(old(self)@, c, next), final(self)@, out),
    {
        if c == ' ' || c == '\t' {
            self.parser_state = next;
            None
        } else {
            Some(self.parse_error())
        }
    }

    /// Takes a character after a keyword that has no argument.
    fn bare(&mut self, c: char, command: ClientCommand) -> (out: Option<
        Result<ClientCommand, ParseError>,
    >)
        ensures
            follows(step_bare(old(self)@, c, command@), final(self)@, out),
    {
        if c == '\n' {
            Some(self.return_command(command))
        } else if c == '\r' {
            None
        } else {
            Some(self.parse_error())
        }
    }

    /// Ends a `CONNECT` line.
    fn end_connect(&mut self) -> (out: Option<Result<ClientCommand, ParseError>>)
        ensures
            follows(end_connect(old(self)@), final(self)@, out),
    {
        let arg = string_from_chars(self.arg_buffer.as_slice());
        match connect_opts(arg.as_str()) {
            Some(opts) => Some(self.return_command(ClientCommand::Connect(opts))),
            None => Some(self.parse_error()),
        }
    }

    /// Ends a `PUB` line.
    fn end_pub(&mut self) -> (out: Option<Result<ClientCommand, ParseError>>)
        ensures
            follows(end_pub(old(self)@), final(self)@, out),
    {
        let args = split_arg(self.arg_buffer.as_slice());
        if args.len() != 2 {
            return Some(self.parse_error());
        }
        match parse_uint(args[1].as_slice()) {
            Ok(size) => {
                self.args = args;
                self.msg_size = size as usize;
                self.parser_state = ParserState::PubMsg;
                None
            },
            Err(_) => Some(self.parse_error()),
        }
    }

    /// Ends a `SUB` line.
    fn end_sub(&mut self) -> (out: Option<Result<ClientCommand, ParseError>>)
        ensures
            follows(end_sub(old(self)@), final(self)@, out),
    {
        let args = split_arg(self.arg_buffer.as_slice());
        if args.len() != 2 {
            return Some(self.parse_error());
        }
        let subject = string_from_chars(args[0].as_slice());
        let id = string_from_chars(args[1].as_slice());
        Some(self.return_command(ClientCommand::Sub { subject, id }))
    }

    /// Ends an `UNSUB` line.
    fn end_unsub(&mut self) -> (out: Option<Result<ClientCommand, ParseError>>)
        ensures
            follows(end_unsub(old(self)@), final(self)@, out),
    {
        let args = split_arg(self.arg_buffer.as_slice());
        if args.len() != 1 {
            return Some(self.parse_error());
        }
        let id = string_from_chars(args[0].as_slice());
        Some(self.return_command(ClientCommand::Unsub { id }))
    }

    /// Takes a byte after a `PUB` line.
    fn payload(&mut self, b: u8) -> (out: Option<Result<ClientCommand, ParseError>>)
        ensures
            follows(step_payload(old(self)@, b), final(self)@, out),
    {
        if b == 13 {
            if self.msg_buffer.len() != self.msg_size {
                return Some(self.parse_error());
            }
            match decode_utf8_text(self.msg_buffer.as_slice()) {
                Some(msg) => {
                    let subject = if self.args.len() > 0 {
                        string_from_chars(self.args[0].as_slice())
                    } else {
                        String::new()
                    };
                    Some(self.return_command(ClientCommand::Pub { subject, msg }))
                },
                None => Some(self.parse_error()),
            }
        } else if self.msg_buffer.len() >= self.msg_size {
            Some(self.parse_error())
        } else {
            self.msg_buffer.push(b);
            None
        }
    }

    /// Takes one byte of input. A result comes out with the byte that
    /// completes a command or an error.
    fn advance(&mut self, b: u8) -> (out: Option<Result<ClientCommand, ParseError>>)
        ensures
            follows(step(old(self)@, b), final(self)@, out),
    {
        let c = b as char;
        match self.parser_state {
            ParserState::OpStart => {
                if c == 'C' || c == 'c' {
                    self.parser_state = ParserState::OpC;
                    None
                } else if c == 'P' || c == 'p' {
                    self.parser_state = ParserState::OpP;
                    None
                } else if c == 'S' || c == 's' {
                    self.parser_state = ParserState::OpS;
                    None
                } else if c == 'U' || c == 'u' {
                    self.parser_state = ParserState::OpU;
                    None
                } else if c == '\r' || c == '\n' {
                    Some(self.return_command(ClientCommand::Noop))
                } else {
                    Some(self.parse_error())
                }
            },
            ParserState::OpC => self.letter(c, 'O', ParserState::OpCo),
            ParserState::OpCo => self.letter(c, 'N', ParserState::OpCon),
            ParserState::OpCon => self.letter(c, 'N', ParserState::OpConn),
            ParserState::OpConn => self.letter(c, 'E', ParserState::OpConne),
            ParserState::OpConne => self.letter(c, 'C', ParserState::OpConnec),
            ParserState::OpConnec => self.letter(c, 'T', ParserState::OpConnect),
            ParserState::OpConnect => self.blank(c, ParserState::ConnectArg),
            ParserState::ConnectArg => {
                if c == '\n' {
                    self.end_connect()
                } else {
                    self.line(c)
                }
            },
            ParserState::OpP => {
                if c == 'I' || c == 'i' {
                    self.parser_state = ParserState::OpPi;
                    None
                } else if c == 'O' || c == 'o' {
                    self.parser_state = ParserState::OpPo;
                    None
                } else if c == 'U' || c == 'u' {
                    self.parser_state = ParserState::OpPu;
                    None
                } else {
                    Some(self.parse_error())
                }
            },
            ParserState::OpPi => self.letter(c, 'N', ParserState::OpPin),
            ParserState::OpPin => self.letter(c, 'G', ParserState::OpPing),
            ParserState::OpPing => self.bare(c, ClientCommand::Ping),
            ParserState::OpPo => self.letter(c, 'N', ParserState::OpPon),
            ParserState::OpPon => self.letter(c, 'G', ParserState::OpPong),
            ParserState::OpPong => self.bare(c, ClientCommand::Pong),
            ParserState::OpPu => self.letter(c, 'B', ParserState::OpPub),
            ParserState::OpPub => self.blank(c, ParserState::PubArg),
            ParserState::PubArg => {
                if c == '\n' {
                    self.end_pub()
                } else {
                    self.line(c)
                }
            },
            ParserState::PubMsg => self.payload(b),
            ParserState::OpS => self.letter(c, 'U', ParserState::OpSu),
            ParserState::OpSu => self.letter(c, 'B', ParserState::OpSub),
            ParserState::OpSub => self.blank(c, ParserState::SubArg),
            ParserState::SubArg => {
                if c == '\n' {
                    self.end_sub()
                } else {
                    self.line(c)
                }
            },
            ParserState::OpU => self.letter(c, 'N', ParserState::OpUn),
            ParserState::OpUn => self.letter(c, 'S', ParserState::OpUns),
            ParserState::OpUns => self.letter(c, 'U', ParserState::OpUnsu),
            ParserState::OpUnsu => self.letter(c, 'B', ParserState::OpUnsub),
            ParserState::OpUnsub => self.blank(c, ParserState::UnsubArg),
            ParserState::UnsubArg => {
                if c == '\n' {
                    self.end_unsub()
                } else {
                    self.line(c)
                }
            },
        }
    }

    /// Takes a character of an argument line, other than the line feed
    /// that ends it.
    fn line(&mut self, c: char) -> (out: Option<Result<ClientCommand, ParseError>>)
        requires
            c != '\n',
        ensures
            out is None,
            final(self)@ == (if c == '\r' {
                old(self)@
            } else {
                old(self)@.push_arg(c)
            }),
    {
        if c != '\r' {
            self.arg_buffer.push(c);
        }
        None
    }

    /// Reads `buf` up to the byte that completes a command or an error, and
    /// returns that result with the byte's index; the parser then starts
    /// afresh. Where `buf` ends within a command, returns `Noop` with the
    /// length of `buf`, and keeps what it has read for the next call.
    pub fn parse(&mut self, buf: &[u8]) -> (result: (Result<ClientCommand, ParseError>, usize))
        ensures
            match scan(old(self)@, buf@, 0) {
                Outcome::Pending(m) => {
                    &&& result.0 == Ok::<ClientCommand, ParseError>(ClientCommand::Noop)
                    &&& result.1 == buf.len()
                    &&& final(self)@ == m
                },
                Outcome::Finished(r, at) => {
                    &&& result_view(result.0) == r
                    &&& result.1 == at
                    &&& final(self)@ == ParserModel::fresh()
                },
            },
    {
        let mut i: usize = 0;
        while i < buf.len()
            invariant
                i <= buf.len(),
                scan(old(self)@, buf@, 0) == scan(self@, buf@, i as int),
            decreases buf.len() - i,
        {
            match self.advance(buf[i]) {
                Some(result) => {
                    return (result, i);
                },
                None => {},
            }
            i += 1;
        }
        (Ok(ClientCommand::Noop), buf.len())
    }

    /// Reads all of `buf` and returns, in order, the result of every
    /// command or error that a byte of `buf` completes. What is left of an
    /// unfinished command is kept for the next call.
    pub fn parse_all(&mut self, buf: &[u8]) -> (results: Vec<Result<ClientCommand, ParseError>>)
        ensures
            results_view(results@) == feed(old(self)@, buf@).0,
            final(self)@ == feed(old(self)@, buf@).1,
    {
        let mut results: Vec<Result<ClientCommand, ParseError>> = Vec::new();
        let mut i: usize = 0;
        assert(buf@.skip(0) =~= buf@);
        while i < buf.len()
            invariant
                i <= buf.len(),
                results_view(results@) + feed(self@, buf@.skip(i as int)).0 == feed(
                    old(self)@,
                    buf@,
                ).0,
                feed(self@, buf@.skip(i as int)).1 == feed(old(self)@, buf@).1,
            decreases buf.len() - i,
        {
            let ghost rest = buf@.skip(i as int);
            assert(rest.drop_first() =~= buf@.skip(i + 1));
            match self.advance(buf[i]) {
                Some(result) => {
                    results.push(result);
                },
                None => {},
            }
            i += 1;
        }
        results
    }
}

/// The results of a parser, each with its command taken by its view.
pub open spec fn results_view(results: Seq<Result<ClientCommand, ParseError>>) -> Seq<
    Result<CommandView, ParseError>,
> {
    Seq::new(results.len(), |i: int| result_view(results[i]))
}

/// Feeds all of `buf` to a parser in state `m`: the results that the bytes
/// of `buf` complete, in order, and the state in which the parser is left.
/// After each result the parser starts afresh with the next byte.
pub open spec fn feed(m: ParserModel, buf: Seq<u8>) -> (
    Seq<Result<CommandView, ParseError>>,
    ParserModel,
)
    decreases buf.len(),
{
    if buf.len() == 0 {
        (Seq::empty(), m)
    } else {
        match step(m, buf[0]) {
            Step::More(next) => feed(next, buf.drop_first()),
            Step::Done(result) => {
                let rest = feed(ParserModel::fresh(), buf.drop_first());
                (seq![result] + rest.0, rest.1)
            },
        }
    }
}

/// Feeding a stream in two fragments, one after the other, gives the same
/// results and leaves the same state as feeding it whole.
pub proof fn lemma_feed_fragments(m: ParserModel, a: Seq<u8>, b: Seq<u8>)
    ensures
        feed(m, a + b).0 == feed(m, a).0 + feed(feed(m, a).1, b).0,
        feed(m, a + b).1 == feed(feed(m, a).1, b).1,
    decreases a.len(),
{
    if a.len() == 0 {
    } else {
        let whole = a + b;
        assert(whole.drop_first() =~= a.drop_first() + b);
        match step(m, a[0]) {
            Step::More(next) => {
                lemma_feed_fragments(next, a.drop_first(), b);
            },
            Step::Done(result) => {
                let fresh = ParserModel::fresh();
                lemma_feed_fragments(fresh, a.drop_first(), b);
            },
        }
    }
}

/// Feeds the fragments of `parts` one after the other: the results of all
/// of them, in order, and the state in which the parser is left.
pub open spec fn feed_each(m: ParserModel, parts: Seq<Seq<u8>>) -> (
    Seq<Result<CommandView, ParseError>>,
    ParserModel,
)
    decreases parts.len(),
{
    if parts.len() == 0 {
        (Seq::empty(), m)
    } else {
        let first = feed(m, parts[0]);
        let rest = feed_each(first.1, parts.drop_first());
        (first.0 + rest.0, rest.1)
    }
}

/// However a stream is cut into fragments, feeding the fragments in order
/// gives the same results and leaves the same state as feeding the stream
/// whole.
pub proof fn lemma_feed_each(m: ParserModel, parts: Seq<Seq<u8>>)
    ensures
        feed_each(m, parts) == feed(m, parts.flatten()),
    decreases parts.len(),
{
    if parts.len() == 0 {
    } else {
        let first = feed(m, parts[0]);
        lemma_feed_each(first.1, parts.drop_first());
        lemma_feed_fragments(m, parts[0], parts.drop_first().flatten());
    }
}

/// A call of `parse` and the feeding of a stream agree: where a byte of
/// `buf` completes a result, that result comes first and the rest of the
/// stream, from the byte after it, is fed to a parser that starts afresh;
/// where none does, nothing comes out.
pub proof fn lemma_feed_scan(m: ParserModel, buf: Seq<u8>, from: int)
    requires
        0 <= from <= buf.len(),
    ensures
        match scan(m, buf, from) {
            Outcome::Pending(end) => feed(m, buf.skip(from)) == (
                Seq::<Result<CommandView, ParseError>>::empty(),
                end,
            ),
            Outcome::Finished(result, at) => {
                &&& from <= at < buf.len()
                &&& feed(m, buf.skip(from)).0 == seq![result] + feed(
                    ParserModel::fresh(),
                    buf.skip(at + 1),
                ).0
                &&& feed(m, buf.skip(from)).1 == feed(ParserModel::fresh(), buf.skip(at + 1)).1
            },
        },
    decreases buf.len() - from,
{
    if from < buf.len() {
        let rest = buf.skip(from);
        assert(rest.drop_first() =~= buf.skip(from + 1));
        match step(m, buf[from]) {
            Step::More(next) => {
                lemma_feed_scan(next, buf, from + 1);
            },
            Step::Done(result) => {},
        }
    }
}

} // verus!
