//! What the deployment sends to and reads from the servers over ssh: the
//! commands that find and read the docker compose files, the reading of their
//! output, and the reading of an interactive shell's output.
use vstd::prelude::*;
use vstd::utf8::{decode_utf8, valid_utf8};

use crate::conf::ConfigServer;
use crate::text::{chars_of, decimal, decimal_string, lines, split_lines_to_strings, utf8_to_string};

verus! {

/// The command that lists the docker compose files of a server.
pub open spec fn list_compose_files_text(path: Seq<char>) -> Seq<char> {
    "cd "@ + path + "; ls *.yml"@
}

pub fn list_compose_files_command(server: &ConfigServer) -> (r: String)
    ensures
        r@ == list_compose_files_text(server.docker_compose_path@),
{
    let mut r = String::from_str("cd ");
    r.append(server.docker_compose_path.as_str());
    r.append("; ls *.yml");
    r
}

/// The command that prints one docker compose file of a server.
pub open spec fn cat_compose_file_text(path: Seq<char>, file: Seq<char>) -> Seq<char> {
    "cat "@ + path + "/"@ + file
}

pub fn cat_compose_file_command(server: &ConfigServer, file: &String) -> (r: String)
    ensures
        r@ == cat_compose_file_text(server.docker_compose_path@, file@),
{
    let mut r = String::from_str("cat ");
    r.append(server.docker_compose_path.as_str());
    r.append("/");
    r.append(file.as_str());
    r
}

/// The docker compose files named in the output of the listing command, one
/// per line. The output must be UTF-8.
pub fn find_docker_compose_files(output: Vec<u8>) -> (r: Vec<String>)
    requires
        valid_utf8(output@),
    ensures
        r@.len() == lines(decode_utf8(output@)).len(),
        forall|j: int| 0 <= j < r@.len() ==> #[trigger] r@[j]@ == lines(decode_utf8(output@))[j],
{
    output_lines(output)
}

/// The lines of a command's UTF-8 output.
pub fn output_lines(output: Vec<u8>) -> (r: Vec<String>)
    requires
        valid_utf8(output@),
    ensures
        r@.len() == lines(decode_utf8(output@)).len(),
        forall|j: int| 0 <= j < r@.len() ==> #[trigger] r@[j]@ == lines(decode_utf8(output@))[j],
{
    let text = utf8_to_string(output);
    match text {
        Some(s) => {
            let cs = chars_of(s.as_str());
            split_lines_to_strings(&cs)
        },
        None => Vec::new(),
    }
}

/// The content of a docker compose file from the output of the print command.
/// The output must be UTF-8.
pub fn fetch_docker_compose_content(output: Vec<u8>) -> (r: String)
    requires
        valid_utf8(output@),
    ensures
        r@ == decode_utf8(output@),
{
    match utf8_to_string(output) {
        Some(s) => s,
        None => String::new(),
    }
}

/// What is typed into the shell to run `cmd`.
pub fn shell_input(cmd: &String) -> (r: String)
    ensures
        r@ == cmd@.push('\n'),
{
    let mut r = cmd.clone();
    r.append("\n");
    proof {
        reveal_strlit("\n");
    }
    assert(r@ =~= cmd@.push('\n'));
    r
}

/// The most reads of a shell's output before giving up on it.
pub const MAX_SHELL_READS: i32 = 99;

/// The output of an interactive shell read so far: its lines, and the number
/// of the next read (the first is 1).
pub struct ShellTranscript {
    pub lines: Vec<String>,
    pub round: i32,
}

pub ghost struct TranscriptModel {
    pub lines: Seq<Seq<char>>,
    pub round: int,
}

impl View for ShellTranscript {
    type V = TranscriptModel;

    open spec fn view(&self) -> TranscriptModel {
        TranscriptModel { lines: self.lines@.map_values(|l: String| l@), round: self.round as int }
    }
}

impl ShellTranscript {
    /// Nothing read yet.
    pub fn new() -> (r: Self)
        ensures
            r@.lines == Seq::<Seq<char>>::empty(),
            r@.round == 1,
    {
        let r = ShellTranscript { lines: Vec::new(), round: 1 };
        assert(r@.lines =~= Seq::<Seq<char>>::empty());
        r
    }

    /// Whether another read is due.
    pub fn wants_more(&self) -> (b: bool)
        ensures
            b == (self@.round <= MAX_SHELL_READS),
    {
        self.round <= MAX_SHELL_READS
    }

    /// Takes the output of one read. An empty read ends the reading and leaves
    /// the transcript as it was; otherwise the lines of the output are added,
    /// the read is counted, and the result says whether another read is due.
    /// The output must be UTF-8.
    pub fn take_output(&mut self, chunk: Vec<u8>) -> (more: bool)
        requires
            old(self)@.round <= MAX_SHELL_READS,
            valid_utf8(chunk@),
        ensures
            chunk@.len() == 0 ==> !more && final(self)@ == old(self)@,
            chunk@.len() > 0 ==> {
                &&& final(self)@.lines == old(self)@.lines + lines(decode_utf8(chunk@))
                &&& final(self)@.round == old(self)@.round + 1
                &&& more == (final(self)@.round <= MAX_SHELL_READS)
            },
    {
        if chunk.len() == 0 {
            return false;
        }
        let ghost text = decode_utf8(chunk@);
        let ls = output_lines(chunk);
        let ghost before = self@.lines;
        let mut j: usize = 0;
        while j < ls.len()
            invariant
                j <= ls@.len() == lines(text).len(),
                forall|k: int| 0 <= k < ls@.len() ==> #[trigger] ls@[k]@ == lines(text)[k],
                self@.lines == before + lines(text).take(j as int),
                self.round == old(self).round,
            decreases ls@.len() - j,
        {
            let l = ls[j].clone();
            let ghost prev = self.lines@;
            self.lines.push(l);
            assert(self.lines@ == prev.push(l));
            proof {
                lemma_views_push(prev, l);
                assert(before + lines(text).take(j + 1) =~= (before + lines(text).take(j as int)).push(
                    lines(text)[j as int],
                ));
            }
            j += 1;
        }
        assert(lines(text).take(j as int) =~= lines(text));
        self.round = self.round + 1;
        self.round <= MAX_SHELL_READS
    }
}

proof fn lemma_views_push(s: Seq<String>, x: String)
    ensures
        s.push(x).map_values(|l: String| l@) == s.map_values(|l: String| l@).push(x@),
{
    assert(s.push(x).map_values(|l: String| l@) =~= s.map_values(|l: String| l@).push(x@));
}

/// The progress message shown while the `round`-th read runs.
pub open spec fn running_message_text(round: i32) -> Seq<char> {
    "running "@ + decimal(round as int) + " s"@
}

pub fn running_message(round: i32) -> (r: String)
    ensures
        r@ == running_message_text(round),
{
    let mut r = String::from_str("running ");
    let d = decimal_string(round);
    r.append(d.as_str());
    r.append(" s");
    r
}

} // verus!
