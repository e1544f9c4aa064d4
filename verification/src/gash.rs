//! The `gash` shell: command-line parsing, history, and the fixed-size
//! packets in which data flows between the stages of a pipeline.
use vstd::prelude::*;
use vstd::utf8::{decode_utf8, encode_utf8, valid_utf8};

use crate::text::{
    chars_of, find_first, find_last, first_index, last_index, lemma_first_index_at,
    lemma_first_index_none, lemma_index_props, split_chars,
    split_on, string_of, string_push, trim, trim_bounds, trim_str, views, words, words_of,
};

verus! {

/// Capacity of the payload of one packet.
pub const BUFF_SIZE: usize = 64;

/// A chunk of a byte stream passed between pipeline stages.
pub struct Packet {
    pub payload: [u8; BUFF_SIZE],
    pub length: usize,
    pub end_of_stream: bool,
}

/// What `String::from_utf8_lossy` returns for `bytes`.
pub uninterp spec fn utf8_lossy(bytes: Seq<u8>) -> Seq<char>;

/// `String::from_utf8_lossy`: decodes `bytes`, putting U+FFFD in place of
/// each invalid sequence. The contract names the result and states, as the
/// documentation does, that valid UTF-8 is decoded exactly; what replaces
/// invalid sequences is left unsaid.
#[verifier::external_body]
fn from_utf8_lossy(bytes: &[u8]) -> (s: String)
    ensures
        s@ == utf8_lossy(bytes@),
        valid_utf8(bytes@) ==> s@ == decode_utf8(bytes@),
{
    String::from_utf8_lossy(bytes).into_owned()
}

impl Packet {
    /// The bytes a packet carries: its first `length` payload bytes, or the
    /// whole payload when `length` is not below the capacity.
    pub open spec fn bytes(&self) -> Seq<u8> {
        if self.length < BUFF_SIZE {
            self.payload@.take(self.length as int)
        } else {
            self.payload@
        }
    }

    /// An empty packet that does not end the stream.
    pub fn start_packet() -> (p: Packet)
        ensures
            p.payload@ == Seq::new(BUFF_SIZE as nat, |i: int| 0u8),
            p.length == 0,
            !p.end_of_stream,
            p.bytes() == Seq::<u8>::empty(),
    {
        Packet { payload: [0u8; BUFF_SIZE], length: 0, end_of_stream: false }
    }

    /// An empty packet that ends the stream.
    pub fn end_packet() -> (p: Packet)
        ensures
            p.length == 0,
            p.end_of_stream,
            p.bytes() == Seq::<u8>::empty(),
    {
        Packet { payload: [0u8; BUFF_SIZE], length: 0, end_of_stream: true }
    }

    /// The packet for a read of `n` bytes into `payload`: a short read marks
    /// the end of the stream.
    pub fn from_chunk(payload: [u8; BUFF_SIZE], n: usize) -> (p: Packet)
        requires
            n <= BUFF_SIZE,
        ensures
            p.payload == payload,
            p.length == n,
            p.end_of_stream == (n < BUFF_SIZE),
            p.bytes() == payload@.take(n as int),
    {
        assert(payload@.take(BUFF_SIZE as int) =~= payload@);
        Packet { payload, length: n, end_of_stream: n < BUFF_SIZE }
    }

    /// The bytes the packet carries.
    pub fn get_bytes(&self) -> (b: &[u8])
        ensures
            b@ == self.bytes(),
    {
        if self.length < BUFF_SIZE {
            vstd::slice::slice_subrange(self.payload.as_slice(), 0, self.length)
        } else {
            self.payload.as_slice()
        }
    }

    /// The bytes the packet carries, decoded as UTF-8 with replacement
    /// characters for invalid sequences.
    pub fn to_string(&self) -> (s: String)
        ensures
            s@ == utf8_lossy(self.bytes()),
            valid_utf8(self.bytes()) ==> s@ == decode_utf8(self.bytes()),
    {
        from_utf8_lossy(self.get_bytes())
    }
}

/// The stream `b` cut into packets: full packets of `BUFF_SIZE` bytes and a
/// last one that holds the rest (empty only when the stream is).
pub open spec fn chunks(b: Seq<u8>) -> Seq<Seq<u8>>
    decreases b.len(),
{
    if b.len() <= BUFF_SIZE {
        seq![b]
    } else {
        seq![b.take(BUFF_SIZE as int)] + chunks(b.skip(BUFF_SIZE as int))
    }
}

/// The concatenation of a sequence of byte strings.
pub open spec fn concat_bytes(s: Seq<Seq<u8>>) -> Seq<u8>
    decreases s.len(),
{
    if s.len() == 0 {
        Seq::empty()
    } else {
        s[0] + concat_bytes(s.drop_first())
    }
}

/// `packets` carry, in order, the chunks of `b`, and only the last one ends
/// the stream.
pub open spec fn packets_of(packets: Seq<Packet>, b: Seq<u8>) -> bool {
    &&& packets.len() == chunks(b).len()
    &&& forall|i: int|
        0 <= i < packets.len() ==> {
            &&& (#[trigger] packets[i]).bytes() == chunks(b)[i]
            &&& packets[i].length <= BUFF_SIZE
            &&& packets[i].end_of_stream == (i == packets.len() - 1)
        }
}

/// Cuts `b` into packets of at most `BUFF_SIZE` bytes, the last one marked
/// as the end of the stream.
pub fn packetize(b: &Vec<u8>) -> (packets: Vec<Packet>)
    ensures
        packets_of(packets@, b@),
{
    let n = b.len();
    let mut packets: Vec<Packet> = Vec::new();
    let mut start: usize = 0;
    assert(b@.skip(0) =~= b@);
    loop
        invariant
            start <= n == b@.len(),
            start < n || start == 0,
            chunks(b@) == views_bytes(packets@) + chunks(b@.skip(start as int)),
            forall|i: int|
                0 <= i < packets@.len() ==> (#[trigger] packets@[i]).length <= BUFF_SIZE
                    && !packets@[i].end_of_stream,
        decreases n - start,
    {
        let end: usize = if n - start > BUFF_SIZE {
            start + BUFF_SIZE
        } else {
            n
        };
        let mut payload = [0u8; BUFF_SIZE];
        let mut k: usize = 0;
        while k < end - start
            invariant
                start <= end <= n == b@.len(),
                end - start <= BUFF_SIZE,
                k <= end - start,
                forall|j: int| 0 <= j < k ==> payload@[j] == b@[start + j],
            decreases end - start - k,
        {
            payload[k] = b[start + k];
            k += 1;
        }
        let last = end == n;
        let p = Packet { payload, length: end - start, end_of_stream: last };
        let ghost rest = b@.skip(start as int);
        assert(p.bytes() =~= b@.subrange(start as int, end as int));
        proof {
            if last {
                assert(rest =~= b@.subrange(start as int, end as int));
            } else {
                assert(rest.take(BUFF_SIZE as int) =~= b@.subrange(start as int, end as int));
                assert(rest.skip(BUFF_SIZE as int) =~= b@.skip(end as int));
            }
        }
        let ghost old_packets = packets@;
        packets.push(p);
        assert(views_bytes(packets@) =~= views_bytes(old_packets).push(p.bytes()));
        if last {
            assert(chunks(b@) =~= views_bytes(packets@));
            assert forall|i: int| 0 <= i < packets@.len() implies (#[trigger] packets@[i]).bytes()
                == chunks(b@)[i] by {
                assert(views_bytes(packets@)[i] == packets@[i].bytes());
            }
            return packets;
        }
        start = end;
    }
}

/// The bytes carried by each packet.
pub open spec fn views_bytes(p: Seq<Packet>) -> Seq<Seq<u8>> {
    p.map_values(|q: Packet| q.bytes())
}

} // verus!

verus! {

/// Packetising loses nothing and adds nothing: the packets of a stream,
/// joined in order, give the stream back. Every packet but the last is
/// full, and the last is empty only when the stream is.
pub proof fn lemma_chunks_concat(b: Seq<u8>)
    ensures
        concat_bytes(chunks(b)) == b,
        chunks(b).len() >= 1,
        forall|i: int| 0 <= i < chunks(b).len() - 1 ==> (#[trigger] chunks(b)[i]).len() == BUFF_SIZE,
        chunks(b).last().len() <= BUFF_SIZE,
        b.len() > 0 ==> chunks(b).last().len() > 0,
    decreases b.len(),
{
    if b.len() <= BUFF_SIZE {
        assert(chunks(b) == seq![b]);
        assert(seq![b].drop_first() =~= Seq::<Seq<u8>>::empty());
        assert(concat_bytes(Seq::<Seq<u8>>::empty()) == Seq::<u8>::empty());
        assert(concat_bytes(seq![b]) == b + concat_bytes(Seq::<Seq<u8>>::empty()));
        assert(b + Seq::<u8>::empty() =~= b);
    } else {
        let rest = b.skip(BUFF_SIZE as int);
        lemma_chunks_concat(rest);
        let c = chunks(b);
        assert(c == seq![b.take(BUFF_SIZE as int)] + chunks(rest));
        assert(c.drop_first() =~= chunks(rest));
        assert(c[0] == b.take(BUFF_SIZE as int));
        assert(b.take(BUFF_SIZE as int) + rest =~= b);
        assert forall|i: int| 0 <= i < c.len() - 1 implies (#[trigger] c[i]).len() == BUFF_SIZE by {
            if i > 0 {
                assert(c[i] == chunks(rest)[i - 1]);
            }
        }
    }
}

} // verus!

verus! {

/// A command line split into the pipeline to run, its input and output
/// redirections, and whether it runs in the background.
pub struct Command_Parse {
    pub cmd_line: String,
    pub input_file: String,
    pub output_file: String,
    pub background_flag: bool,
}

/// The parts of a command line: the pipeline, the file after the last `<`,
/// the file after the last `>`, and whether the line ends with `&` (which is
/// not part of any of them). A redirection runs up to the other one when it
/// comes first, else to the end of the line.
pub open spec fn parse_command(line: Seq<char>) -> (Seq<char>, Seq<char>, Seq<char>, bool) {
    let bg = line.len() > 0 && line.last() == '&';
    let body = if bg {
        line.drop_last()
    } else {
        line
    };
    let n = body.len() as int;
    let none = Seq::<char>::empty();
    match (last_index(line, '>'), last_index(line, '<')) {
        (None, None) => (body, none, none, bg),
        (Some(o), None) => (body.take(o), none, body.subrange(o + 1, n), bg),
        (None, Some(i)) => (body.take(i), body.subrange(i + 1, n), none, bg),
        (Some(o), Some(i)) => if o < i {
            (body.take(o), body.subrange(i + 1, n), body.subrange(o + 1, i), bg)
        } else {
            (body.take(i), body.subrange(i + 1, o), body.subrange(o + 1, n), bg)
        },
    }
}

impl Command_Parse {
    /// The view of a parsed command line.
    pub open spec fn parts(&self) -> (Seq<char>, Seq<char>, Seq<char>, bool) {
        (self.cmd_line@, self.input_file@, self.output_file@, self.background_flag)
    }

    /// Parses a command line into its pipeline, redirections and background flag.
    pub fn new(line: &str) -> (c: Command_Parse)
        ensures
            c.parts() == parse_command(line@),
    {
        let v = chars_of(line);
        let n = v.len();
        let bg = n > 0 && v[n - 1] == '&';
        let length: usize = if bg {
            n - 1
        } else {
            n
        };
        let last_out = find_last(&v, '>');
        let last_in = find_last(&v, '<');
        proof {
            lemma_index_props(v@, '>');
            lemma_index_props(v@, '<');
        }
        let redirect_out = match last_out {
            Some(i) => i,
            None => length,
        };
        let redirect_in = match last_in {
            Some(i) => i,
            None => length,
        };
        let ghost body = if bg {
            v@.drop_last()
        } else {
            v@
        };
        assert(body =~= v@.take(length as int));
        assert forall|a: int, b: int| 0 <= a <= b <= length implies v@.subrange(a, b) =~= body.subrange(
            a,
            b,
        ) by {}
        let c = if redirect_in > redirect_out && redirect_out != length {
            if redirect_in != length {
                Command_Parse {
                    cmd_line: string_of(&v, 0, redirect_out),
                    input_file: string_of(&v, redirect_in + 1, length),
                    output_file: string_of(&v, redirect_out + 1, redirect_in),
                    background_flag: bg,
                }
            } else {
                Command_Parse {
                    cmd_line: string_of(&v, 0, redirect_out),
                    input_file: String::new(),
                    output_file: string_of(&v, redirect_out + 1, redirect_in),
                    background_flag: bg,
                }
            }
        } else if redirect_in != length {
            if redirect_out != length {
                Command_Parse {
                    cmd_line: string_of(&v, 0, redirect_in),
                    input_file: string_of(&v, redirect_in + 1, redirect_out),
                    output_file: string_of(&v, redirect_out + 1, length),
                    background_flag: bg,
                }
            } else {
                Command_Parse {
                    cmd_line: string_of(&v, 0, redirect_in),
                    input_file: string_of(&v, redirect_in + 1, redirect_out),
                    output_file: String::new(),
                    background_flag: bg,
                }
            }
        } else {
            Command_Parse {
                cmd_line: string_of(&v, 0, length),
                input_file: String::new(),
                output_file: String::new(),
                background_flag: bg,
            }
        };
        assert(body.take(redirect_out as int) =~= v@.subrange(0, redirect_out as int));
        assert(body.take(redirect_in as int) =~= v@.subrange(0, redirect_in as int));
        c
    }
}

} // verus!

verus! {

/// The UTF-8 bytes of the history lines, one after the other.
pub open spec fn history_bytes(h: Seq<Seq<char>>) -> Seq<u8>
    decreases h.len(),
{
    if h.len() == 0 {
        Seq::empty()
    } else {
        history_bytes(h.drop_last()) + encode_utf8(h.last())
    }
}

/// The command name of a pipeline stage: what precedes its first space.
pub open spec fn program_name(s: Seq<char>) -> Seq<char> {
    match first_index(s, ' ') {
        Some(i) => s.take(i),
        None => s,
    }
}

/// The argument of `cd`: all that follows the first space (a `cd` without
/// a space has none, and cannot be run).
pub open spec fn cd_argument(s: Seq<char>) -> Seq<char> {
    match first_index(s, ' ') {
        Some(i) => s.skip(i + 1),
        None => Seq::empty(),
    }
}

/// A pipeline segment that is `cd` without an argument, which the shell
/// cannot run.
pub open spec fn bare_cd(seg: Seq<char>) -> bool {
    trim(seg) == seq!['c', 'd']
}

/// A command line that the shell can run: none of its pipeline segments is
/// a bare `cd`.
pub open spec fn cmdline_ok(line: Seq<char>) -> bool {
    forall|i: int|
        0 <= i < split_on(parse_command(line).0, '|').len() ==> !bare_cd(
            #[trigger] split_on(parse_command(line).0, '|')[i],
        )
}

/// What a pipeline stage does.
pub enum Stage {
    /// `cd`: change the working directory to the argument.
    ChangeDir(String),
    /// `history`: send the history down the pipeline.
    History,
    /// Any other command, run as a process.
    Spawn(String),
}

/// The meaning of a [`Stage`].
pub enum StageSpec {
    ChangeDir(Seq<char>),
    History,
    Spawn(Seq<char>),
}

impl View for Stage {
    type V = StageSpec;

    open spec fn view(&self) -> StageSpec {
        match self {
            Stage::ChangeDir(d) => StageSpec::ChangeDir(d@),
            Stage::History => StageSpec::History,
            Stage::Spawn(c) => StageSpec::Spawn(c@),
        }
    }
}

/// The stage for the pipeline segment `seg`, white space trimmed.
pub open spec fn stage_of(seg: Seq<char>) -> StageSpec {
    let s = trim(seg);
    let p = program_name(s);
    if p == seq!['c', 'd'] {
        StageSpec::ChangeDir(cd_argument(s))
    } else if p == seq!['h', 'i', 's', 't', 'o', 'r', 'y'] {
        StageSpec::History
    } else {
        StageSpec::Spawn(s)
    }
}

/// A file name of a redirection: absent when empty, else trimmed.
pub open spec fn redirect_target(f: Seq<char>) -> Option<Seq<char>> {
    if f.len() == 0 {
        None
    } else {
        Some(trim(f))
    }
}

/// What a command line asks the shell to do.
pub struct CommandPlan {
    /// The file to feed to the first stage; the first stage gets an empty
    /// input when there is none.
    pub input_file: Option<String>,
    /// The stages of the pipeline, in order.
    pub stages: Vec<Stage>,
    /// The file that receives the output; the output is printed when there
    /// is none.
    pub output_file: Option<String>,
    /// Whether the shell goes on without waiting for the output.
    pub background: bool,
}

/// An external program with its arguments.
pub struct ExternalCommand {
    pub program: String,
    pub args: Vec<String>,
}

/// What the shell does with a line read at its prompt.
pub enum LineAction {
    /// Nothing: the line is blank.
    Skip,
    /// Leave the shell.
    Exit,
    /// Run this (trimmed) command line.
    Run(String),
}

/// A command shell with a prompt and a history of the lines it ran.
pub struct Shell {
    pub cmd_prompt: String,
    pub history: Vec<String>,
}

fn is_word(v: &Vec<char>, lo: usize, hi: usize, w: &str) -> (b: bool)
    requires
        lo <= hi <= v@.len(),
    ensures
        b == (v@.subrange(lo as int, hi as int) == w@),
{
    let wv = chars_of(w);
    if hi - lo != wv.len() {
        return false;
    }
    let mut k: usize = 0;
    while k < wv.len()
        invariant
            lo <= hi <= v@.len(),
            hi - lo == wv@.len(),
            wv@ == w@,
            k <= wv@.len(),
            forall|j: int| 0 <= j < k ==> v@[lo + j] == wv@[j],
        decreases wv.len() - k,
    {
        if v[lo + k] != wv[k] {
            assert(v@.subrange(lo as int, hi as int)[k as int] != w@[k as int]);
            return false;
        }
        k += 1;
    }
    assert(v@.subrange(lo as int, hi as int) =~= w@);
    true
}

impl Shell {
    /// A shell with the given prompt and an empty history.
    pub fn new(prompt_str: &str) -> (s: Shell)
        ensures
            s.cmd_prompt@ == prompt_str@,
            s.history@.len() == 0,
    {
        Shell { cmd_prompt: prompt_str.to_owned(), history: Vec::new() }
    }

    /// The history as character sequences.
    pub open spec fn history_view(&self) -> Seq<Seq<char>> {
        views(self.history@)
    }

    /// Records a command line, followed by a newline, in the history.
    pub fn add_to_history(&mut self, new_line: String)
        ensures
            final(self).history_view() == old(self).history_view().push(new_line@.push('\n')),
            final(self).cmd_prompt == old(self).cmd_prompt,
    {
        let mut line = new_line;
        string_push(&mut line, '\n');
        self.history.push(line);
        assert(final(self).history_view() =~= old(self).history_view().push(new_line@.push('\n')));
    }

    /// The bytes of the history, line after line.
    pub fn history_bytes(&self) -> (b: Vec<u8>)
        ensures
            b@ == history_bytes(self.history_view()),
    {
        let mut b: Vec<u8> = Vec::new();
        let mut k: usize = 0;
        while k < self.history.len()
            invariant
                k <= self.history@.len(),
                b@ == history_bytes(self.history_view().take(k as int)),
            decreases self.history.len() - k,
        {
            let bytes = self.history[k].as_str().as_bytes();
            let ghost before = b@;
            let mut j: usize = 0;
            while j < bytes.len()
                invariant
                    j <= bytes@.len(),
                    b@ == before + bytes@.take(j as int),
                decreases bytes.len() - j,
            {
                b.push(bytes[j]);
                j += 1;
                assert(b@ =~= before + bytes@.take(j as int));
            }
            assert(bytes@.take(bytes@.len() as int) =~= bytes@);
            assert(self.history_view().take(k + 1).drop_last() =~= self.history_view().take(
                k as int,
            ));
            k += 1;
        }
        assert(self.history_view().take(self.history@.len() as int) =~= self.history_view());
        b
    }

    /// The history, as the packets the `history` command sends down the
    /// pipeline.
    pub fn run_history(&self) -> (packets: Vec<Packet>)
        ensures
            packets_of(packets@, history_bytes(self.history_view())),
    {
        let b = self.history_bytes();
        packetize(&b)
    }

    /// What the shell does with a line read at its prompt: blank lines are
    /// skipped, `exit` leaves, anything else runs, trimmed.
    pub fn interpret_line(line: &str) -> (a: LineAction)
        ensures
            trim(line@).len() == 0 ==> a is Skip,
            trim(line@) == seq!['e', 'x', 'i', 't'] ==> a is Exit,
            trim(line@).len() > 0 && trim(line@) != seq!['e', 'x', 'i', 't'] ==> (a matches LineAction::Run(
                l,
            ) && l@ == trim(line@)),
    {
        let v = chars_of(line);
        let (lo, hi) = trim_bounds(&v);
        proof {
            reveal_strlit("exit");
            assert("exit"@ =~= seq!['e', 'x', 'i', 't']);
        }
        if lo == hi {
            LineAction::Skip
        } else if is_word(&v, lo, hi, "exit") {
            LineAction::Exit
        } else {
            LineAction::Run(string_of(&v, lo, hi))
        }
    }

    /// The program and arguments of a command: its words.
    pub fn spawn_command(&self, cmd_line: &str) -> (c: Option<ExternalCommand>)
        ensures
            match c {
                None => words(cmd_line@).len() == 0,
                Some(e) => words(cmd_line@).len() > 0 && e.program@ == words(cmd_line@)[0]
                    && views(e.args@) == words(cmd_line@).drop_first(),
            },
    {
        let v = chars_of(cmd_line);
        let ws = words_of(&v);
        if ws.len() == 0 {
            return None;
        }
        let mut args: Vec<String> = Vec::new();
        let mut k: usize = 1;
        while k < ws.len()
            invariant
                1 <= k <= ws@.len(),
                views(args@) == views(ws@).subrange(1, k as int),
            decreases ws.len() - k,
        {
            let ghost old_args = args@;
            args.push(ws[k].clone());
            assert(args@ == old_args.push(ws@[k as int]));
            assert(views(args@) =~= views(old_args).push(ws@[k as int]@));
            assert(views(ws@).subrange(1, k + 1) =~= views(ws@).subrange(1, k as int).push(
                views(ws@)[k as int],
            ));
            k += 1;
        }
        assert(views(ws@).drop_first() =~= views(ws@).subrange(1, ws@.len() as int));
        Some(ExternalCommand { program: ws[0].clone(), args })
    }

    /// The stage for one segment of a pipeline.
    pub fn stage_for(segment: &str) -> (st: Stage)
        requires
            !bare_cd(segment@),
        ensures
            st@ == stage_of(segment@),
    {
        let v0 = chars_of(segment);
        let (lo, hi) = trim_bounds(&v0);
        let s = string_of(&v0, lo, hi);
        let v = chars_of(s.as_str());
        let first_space = find_first(&v, ' ');
        let end = match first_space {
            Some(i) => i,
            None => v.len(),
        };
        proof {
            lemma_index_props(v@, ' ');
            assert(v@.take(v@.len() as int) =~= v@);
            reveal_strlit("cd");
            reveal_strlit("history");
            assert("cd"@ =~= seq!['c', 'd']);
            assert("history"@ =~= seq!['h', 'i', 's', 't', 'o', 'r', 'y']);
            assert(v@ == trim(segment@));
        }
        if is_word(&v, 0, end, "cd") {
            match first_space {
                Some(i) => {
                    assert(v@.skip(i + 1) =~= v@.subrange(i + 1, v@.len() as int));
                    Stage::ChangeDir(string_of(&v, i + 1, v.len()))
                },
                None => {
                    assert(v@ == seq!['c', 'd']);
                    assert(false);
                    Stage::History
                },
            }
        } else if is_word(&v, 0, end, "history") {
            Stage::History
        } else {
            Stage::Spawn(s)
        }
    }
}

} // verus!

verus! {

/// The view of an optional string.
pub open spec fn opt_view(o: Option<String>) -> Option<Seq<char>> {
    match o {
        Some(s) => Some(s@),
        None => None,
    }
}

/// What the shell does with a command line: the input file, the stages
/// (the `|`-separated segments of the pipeline part), the output file, and
/// whether it runs in the background.
pub open spec fn plan_of(line: Seq<char>) -> (
    Option<Seq<char>>,
    Seq<StageSpec>,
    Option<Seq<char>>,
    bool,
) {
    let (cmd, input, output, bg) = parse_command(line);
    (
        redirect_target(input),
        split_on(cmd, '|').map_values(|seg: Seq<char>| stage_of(seg)),
        redirect_target(output),
        bg,
    )
}

impl CommandPlan {
    /// The meaning of a plan.
    pub open spec fn view(&self) -> (Option<Seq<char>>, Seq<StageSpec>, Option<Seq<char>>, bool) {
        (
            opt_view(self.input_file),
            self.stages@.map_values(|s: Stage| s@),
            opt_view(self.output_file),
            self.background,
        )
    }
}

fn redirect_file(f: &String) -> (r: Option<String>)
    ensures
        opt_view(r) == redirect_target(f@),
{
    if f.as_str().is_empty() {
        None
    } else {
        Some(trim_str(f.as_str()))
    }
}

impl Shell {
    /// Records `line` in the history and works out what it asks for: which
    /// file feeds the pipeline, what each stage does, where the output goes,
    /// and whether to wait for it.
    pub fn run_cmdline(&mut self, line: &str) -> (plan: CommandPlan)
        requires
            cmdline_ok(line@),
        ensures
            final(self).history_view() == old(self).history_view().push(line@.push('\n')),
            final(self).cmd_prompt == old(self).cmd_prompt,
            plan.view() == plan_of(line@),
    {
        self.add_to_history(line.to_owned());
        let command = Command_Parse::new(line);
        let input_file = redirect_file(&command.input_file);
        let output_file = redirect_file(&command.output_file);
        let cv = chars_of(command.cmd_line.as_str());
        let segments = split_chars(&cv, '|');
        let ghost segs = views(segments@);
        assert(segs == split_on(parse_command(line@).0, '|'));
        let mut stages: Vec<Stage> = Vec::new();
        let mut k: usize = 0;
        while k < segments.len()
            invariant
                k <= segments@.len(),
                segs == views(segments@),
                forall|i: int| 0 <= i < segs.len() ==> !bare_cd(#[trigger] segs[i]),
                stages@.map_values(|s: Stage| s@) == segs.take(k as int).map_values(
                    |seg: Seq<char>| stage_of(seg),
                ),
            decreases segments.len() - k,
        {
            assert(!bare_cd(segs[k as int]));
            let st = Self::stage_for(segments[k].as_str());
            let ghost old_stages = stages@;
            stages.push(st);
            assert(stages@.map_values(|s: Stage| s@) =~= old_stages.map_values(|s: Stage| s@).push(
                st@,
            ));
            assert(segs.take(k + 1) =~= segs.take(k as int).push(segs[k as int]));
            assert(segs.take(k + 1).map_values(|seg: Seq<char>| stage_of(seg)) =~= segs.take(
                k as int,
            ).map_values(|seg: Seq<char>| stage_of(seg)).push(stage_of(segs[k as int])));
            k += 1;
        }
        assert(segs.take(segments@.len() as int) =~= segs);
        CommandPlan { input_file, stages, output_file, background: command.background_flag }
    }
}

} // verus!

verus! {

/// The stage of a pipeline segment is decided by its program name alone,
/// the text of the trimmed segment before its first space (all of it when
/// it has none): `history` sends the history, whatever follows; `cd`
/// changes to the directory named after the space; anything else runs as a
/// process with the whole trimmed segment as its command line.
pub proof fn lemma_stage_by_program_name(seg: Seq<char>, i: int)
    requires
        0 <= i <= trim(seg).len(),
        i < trim(seg).len() ==> trim(seg)[i] == ' ',
        forall|k: int| 0 <= k < i ==> trim(seg)[k] != ' ',
    ensures
        trim(seg).take(i) == seq!['h', 'i', 's', 't', 'o', 'r', 'y'] ==> stage_of(seg)
            == StageSpec::History,
        trim(seg).take(i) == seq!['c', 'd'] && i < trim(seg).len() ==> stage_of(seg)
            == StageSpec::ChangeDir(trim(seg).skip(i + 1)),
        trim(seg).take(i) != seq!['h', 'i', 's', 't', 'o', 'r', 'y'] && trim(seg).take(i)
            != seq!['c', 'd'] ==> stage_of(seg) == StageSpec::Spawn(trim(seg)),
{
    let t = trim(seg);
    if i < t.len() {
        lemma_first_index_at(t, ' ', i);
    } else {
        lemma_first_index_none(t, ' ');
        assert(t.take(i) =~= t);
    }
}

/// A command line that ends in `&` asks for the same work as the line
/// without it: the same input file, stages and output file, only run in
/// the background. (The shorter line must not end in `&` itself, else it
/// runs in the background too.)
pub proof fn lemma_background_same_plan(line: Seq<char>)
    requires
        line.len() == 0 || line.last() != '&',
    ensures
        ({
            let (input, stages, output, bg) = plan_of(line);
            &&& !bg
            &&& plan_of(line.push('&')) == (input, stages, output, true)
        }),
{
    let l2 = line.push('&');
    assert(l2.drop_last() =~= line);
    assert(last_index(l2, '>') == last_index(line, '>'));
    assert(last_index(l2, '<') == last_index(line, '<'));
}

/// The packets that `packetize` and `run_history` hand out carry the whole
/// stream, in order: joined, their bytes give the stream back.
pub proof fn lemma_packets_carry_stream(packets: Seq<Packet>, b: Seq<u8>)
    requires
        packets_of(packets, b),
    ensures
        concat_bytes(views_bytes(packets)) == b,
        packets.len() >= 1,
        packets.last().end_of_stream,
        forall|i: int| 0 <= i < packets.len() - 1 ==> (#[trigger] packets[i]).length == BUFF_SIZE,
{
    lemma_chunks_concat(b);
    assert(views_bytes(packets) =~= chunks(b));
    assert forall|i: int| 0 <= i < packets.len() - 1 implies (#[trigger] packets[i]).length
        == BUFF_SIZE by {
        assert(chunks(b)[i].len() == BUFF_SIZE);
        if packets[i].length < BUFF_SIZE {
            assert(packets[i].bytes().len() == packets[i].length);
        }
    }
}

/// Recording a line adds its bytes, and its newline, at the end of what
/// the `history` command sends.
pub proof fn lemma_history_append(h: Seq<Seq<char>>, line: Seq<char>)
    ensures
        history_bytes(h.push(line.push('\n'))) == history_bytes(h) + encode_utf8(line.push('\n')),
{
    assert(h.push(line.push('\n')).drop_last() =~= h);
}

/// Parsing a command line loses nothing but the separators: the pipeline
/// part and the file names, put back together with the `<` and `>` between
/// them in the order they came, give the line without its final `&`.
pub proof fn lemma_command_parse_reassembles(line: Seq<char>)
    ensures
        ({
            let (cmd, input, output, bg) = parse_command(line);
            let body = if bg {
                line.drop_last()
            } else {
                line
            };
            &&& (bg <==> line.len() > 0 && line.last() == '&')
            &&& match (last_index(line, '>'), last_index(line, '<')) {
                (None, None) => cmd == body,
                (Some(_), None) => cmd.push('>') + output == body,
                (None, Some(_)) => cmd.push('<') + input == body,
                (Some(o), Some(i)) => if o < i {
                    cmd.push('>') + output.push('<') + input == body
                } else {
                    cmd.push('<') + input.push('>') + output == body
                },
            }
        }),
{
    lemma_index_props(line, '>');
    lemma_index_props(line, '<');
    let bg = line.len() > 0 && line.last() == '&';
    let body = if bg {
        line.drop_last()
    } else {
        line
    };
    let n = body.len() as int;
    assert forall|j: int| 0 <= j < n implies body[j] == line[j] by {}
    match (last_index(line, '>'), last_index(line, '<')) {
        (None, None) => {},
        (Some(o), None) => {
            assert(o < n);
            assert(body.take(o).push('>') + body.subrange(o + 1, n) =~= body);
        },
        (None, Some(i)) => {
            assert(i < n);
            assert(body.take(i).push('<') + body.subrange(i + 1, n) =~= body);
        },
        (Some(o), Some(i)) => {
            assert(o < n && i < n);
            if o < i {
                assert(body.take(o).push('>') + body.subrange(o + 1, i).push('<') + body.subrange(
                    i + 1,
                    n,
                ) =~= body);
            } else {
                assert(o != i);
                assert(body.take(i).push('<') + body.subrange(i + 1, o).push('>') + body.subrange(
                    o + 1,
                    n,
                ) =~= body);
            }
        },
    }
}

} // verus!

verus! {

impl Shell {
    /// Whether the segment is `cd` without an argument.
    pub fn is_bare_cd(segment: &str) -> (b: bool)
        ensures
            b == bare_cd(segment@),
    {
        let v = chars_of(segment);
        let (lo, hi) = trim_bounds(&v);
        proof {
            reveal_strlit("cd");
            assert("cd"@ =~= seq!['c', 'd']);
        }
        is_word(&v, lo, hi, "cd")
    }

    /// Whether the command line has a pipeline segment that is `cd` without
    /// an argument, which the shell cannot run.
    pub fn has_bare_cd(line: &str) -> (b: bool)
        ensures
            b == !cmdline_ok(line@),
    {
        let command = Command_Parse::new(line);
        let cv = chars_of(command.cmd_line.as_str());
        let segments = split_chars(&cv, '|');
        let ghost segs = views(segments@);
        assert(segs == split_on(parse_command(line@).0, '|'));
        let mut k: usize = 0;
        while k < segments.len()
            invariant
                k <= segments@.len(),
                segs == views(segments@),
                segs == split_on(parse_command(line@).0, '|'),
                forall|i: int| 0 <= i < k ==> !bare_cd(#[trigger] segs[i]),
            decreases segments.len() - k,
        {
            if Self::is_bare_cd(segments[k].as_str()) {
                assert(bare_cd(segs[k as int]));
                return true;
            }
            k += 1;
        }
        false
    }
}

} // verus!
