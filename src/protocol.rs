//! The line protocol spoken with git on standard input and output, and the
//! small decisions taken on command and tool output.
use vstd::prelude::*;
use vstd::string::{StringExecFns, StringSliceAdditionalSpecFns};
use vstd::utf8::encode_utf8;

use crate::bytes::{bytes_eq, bytes_view, copy_range, has_prefix, split_words, starts_with, words};
use crate::history::contains_bytes;
use crate::model::ids_view;

verus! {

broadcast use vstd::seq::group_seq_axioms;

pub open spec fn capabilities_word() -> Seq<u8> {
    seq![99u8, 97u8, 112u8, 97u8, 98u8, 105u8, 108u8, 105u8, 116u8, 105u8, 101u8, 115u8]
}

pub open spec fn list_word() -> Seq<u8> {
    seq![108u8, 105u8, 115u8, 116u8]
}

pub open spec fn push_prefix() -> Seq<u8> {
    seq![112u8, 117u8, 115u8, 104u8]
}

pub open spec fn fetch_word() -> Seq<u8> {
    seq![102u8, 101u8, 116u8, 99u8, 104u8]
}

fn literal(which: u8) -> (r: Vec<u8>)
    ensures
        which == 0 ==> r@ == capabilities_word(),
        which == 1 ==> r@ == list_word(),
        which == 2 ==> r@ == push_prefix(),
        which >= 3 ==> r@ == fetch_word(),
{
    let mut v: Vec<u8> = Vec::new();
    if which == 0 {
        v.push(99u8);
        v.push(97u8);
        v.push(112u8);
        v.push(97u8);
        v.push(98u8);
        v.push(105u8);
        v.push(108u8);
        v.push(105u8);
        v.push(116u8);
        v.push(105u8);
        v.push(101u8);
        v.push(115u8);
        assert(v@ =~= capabilities_word());
    } else if which == 1 {
        v.push(108u8);
        v.push(105u8);
        v.push(115u8);
        v.push(116u8);
        assert(v@ =~= list_word());
    } else if which == 2 {
        v.push(112u8);
        v.push(117u8);
        v.push(115u8);
        v.push(104u8);
        assert(v@ =~= push_prefix());
    } else {
        v.push(102u8);
        v.push(101u8);
        v.push(116u8);
        v.push(99u8);
        v.push(104u8);
        assert(v@ =~= fetch_word());
    }
    v
}

/// A command received from git.
#[derive(Debug, Clone, Copy, PartialEq, Eq, Structural)]
pub enum Command {
    Capabilities,
    List,
    Push,
    Fetch,
    /// Anything else, which is ignored.
    Unknown,
}

/// The first word of a line, or nothing.
pub open spec fn first_word(line: Seq<u8>) -> Seq<u8> {
    if words(line).len() > 0 {
        words(line)[0]
    } else {
        Seq::empty()
    }
}

/// The command a line carries, by its first word.
pub open spec fn command_of(line: Seq<u8>) -> Command {
    let w = first_word(line);
    if w == capabilities_word() {
        Command::Capabilities
    } else if has_prefix(w, list_word()) {
        Command::List
    } else if has_prefix(w, push_prefix()) {
        Command::Push
    } else if has_prefix(w, fetch_word()) {
        Command::Fetch
    } else {
        Command::Unknown
    }
}

fn first_word_of(line: &[u8]) -> (r: Vec<u8>)
    ensures
        r@ == first_word(line@),
{
    let ws = split_words(line);
    proof {
        assert(bytes_view(ws@).len() == ws@.len());
    }
    if ws.len() > 0 {
        proof {
            assert(bytes_view(ws@)[0] == ws@[0]@);
        }
        copy_range(ws[0].as_slice(), 0, ws[0].len())
    } else {
        Vec::new()
    }
}

/// Reads the command of one protocol line; malformed lines are `Unknown`.
pub fn parse_command(line: &str) -> (r: Command)
    ensures
        r == command_of(line.spec_bytes()),
{
    let w = first_word_of(line.as_bytes());
    proof {
        assert(w@ =~= w@.subrange(0, w@.len() as int));
    }
    if bytes_eq(w.as_slice(), literal(0).as_slice()) {
        Command::Capabilities
    } else if starts_with(w.as_slice(), literal(1).as_slice()) {
        Command::List
    } else if starts_with(w.as_slice(), literal(2).as_slice()) {
        Command::Push
    } else if starts_with(w.as_slice(), literal(3).as_slice()) {
        Command::Fetch
    } else {
        Command::Unknown
    }
}

/// Where collecting a batch of commands stands.
#[derive(Debug, Clone, Copy, PartialEq, Eq, Structural)]
pub enum Collect {
    /// The line was taken; read another.
    More,
    /// The batch is complete.
    Done,
}

/// Why a protocol exchange failed.
#[derive(Debug, Clone, Copy, PartialEq, Eq)]
pub enum ProtocolError {
    /// A batch of commands was not ended by a blank line.
    ExpectedBlankLine,
    /// A line of tool output did not have the expected shape.
    UnexpectedOutput,
}

/// Takes one more line into a batch of commands whose first word is `key`:
/// a line of the batch is kept, a blank line or the end of input ends the
/// batch, anything else is an error.
pub fn collect_lines(collected: &mut Vec<String>, key: &[u8], line: Option<String>) -> (r: Result<Collect, ProtocolError>)
    requires
        key@.len() > 0,
    ensures
        line is None ==> r == Ok::<Collect, ProtocolError>(Collect::Done) && final(collected)@ == old(collected)@,
        line matches Some(l) ==> {
            let b = encode_utf8(l@);
            &&& first_word(b) == key@ ==> r == Ok::<Collect, ProtocolError>(Collect::More) && final(collected)@
                == old(collected)@.push(l)
            &&& first_word(b) != key@ && words(b).len() == 0 ==> r == Ok::<Collect, ProtocolError>(Collect::Done)
                && final(collected)@ == old(collected)@
            &&& first_word(b) != key@ && words(b).len() > 0 ==> r == Err::<Collect, ProtocolError>(ProtocolError::ExpectedBlankLine)
                && final(collected)@ == old(collected)@
        },
{
    match line {
        None => Ok(Collect::Done),
        Some(l) => {
            let b = l.as_str().as_bytes();
            let w = first_word_of(b);
            if bytes_eq(w.as_slice(), key) {
                collected.push(l);
                Ok(Collect::More)
            } else {
                let ws = split_words(b);
                proof {
                    assert(bytes_view(ws@).len() == ws@.len());
                }
                if ws.len() == 0 {
                    Ok(Collect::Done)
                } else {
                    Err(ProtocolError::ExpectedBlankLine)
                }
            }
        },
    }
}

/// Whether a command succeeded; its error has been reported elsewhere.
pub fn report_error<E>(result: Result<(), E>) -> (r: bool)
    ensures
        r == result is Ok,
{
    match result {
        Ok(()) => true,
        Err(_) => false,
    }
}

/// The object id a `fetch <id> <name>` line asks for: the forty characters
/// after the word, when the line has them.
pub open spec fn fetch_id(line: Seq<u8>) -> Option<Seq<u8>> {
    if has_prefix(line, fetch_word().push(32u8)) && line.len() >= 46 {
        Some(line.subrange(6, 46))
    } else {
        None
    }
}

/// The distinct object ids that a batch of fetch lines asks for.
pub fn fetch_revs(lines: &Vec<String>) -> (r: Vec<Vec<u8>>)
    ensures
        forall|h: Seq<u8>| #[trigger] ids_view(r@).contains(h) <==> exists|i: int| 0 <= i < lines@.len() && fetch_id(
            encode_utf8(#[trigger] lines@[i]@),
        ) == Some(h),
        ids_view(r@).no_duplicates(),
{
    let mut prefix = literal(3);
    prefix.push(32u8);
    let mut out: Vec<Vec<u8>> = Vec::new();
    let mut i: usize = 0;
    while i < lines.len()
        invariant
            prefix@ == fetch_word().push(32u8),
            0 <= i <= lines@.len(),
            ids_view(out@).no_duplicates(),
            forall|h: Seq<u8>| #[trigger] ids_view(out@).contains(h) <==> exists|k: int| 0 <= k < i && fetch_id(
                encode_utf8(#[trigger] lines@[k]@),
            ) == Some(h),
        decreases lines@.len() - i,
    {
        let b = lines[i].as_str().as_bytes();
        if starts_with(b, prefix.as_slice()) && b.len() >= 46 {
            let id = copy_range(b, 6, 46);
            if !contains_bytes(&out, id.as_slice()) {
                let ghost prev = ids_view(out@);
                out.push(id);
                proof {
                    assert(ids_view(out@) =~= prev.push(id@));
                    assert forall|h: Seq<u8>| #[trigger] ids_view(out@).contains(h) <==> exists|k: int| 0 <= k < i + 1 && fetch_id(
                        encode_utf8(#[trigger] lines@[k]@),
                    ) == Some(h) by {
                        if ids_view(out@).contains(h) && h != id@ {
                            let m = choose|m: int| 0 <= m < ids_view(out@).len() && ids_view(out@)[m] == h;
                            assert(prev[m] == h);
                            assert(prev.contains(h));
                        }
                        if h == id@ {
                            assert(ids_view(out@)[prev.len() as int] == h);
                            assert(fetch_id(encode_utf8(lines@[i as int]@)) == Some(h));
                        }
                        if exists|k: int| 0 <= k < i + 1 && fetch_id(encode_utf8(#[trigger] lines@[k]@)) == Some(h) {
                            if h != id@ {
                                let k = choose|k: int| 0 <= k < i + 1 && fetch_id(encode_utf8(#[trigger] lines@[k]@)) == Some(h);
                                assert(k < i);
                                assert(prev.contains(h));
                                let m = choose|m: int| 0 <= m < prev.len() && prev[m] == h;
                                assert(ids_view(out@)[m] == h);
                            } else {
                                assert(ids_view(out@)[prev.len() as int] == h);
                            }
                        }
                    }
                }
            } else {
                proof {
                    assert forall|h: Seq<u8>| #[trigger] ids_view(out@).contains(h) <==> exists|k: int| 0 <= k < i + 1 && fetch_id(
                        encode_utf8(#[trigger] lines@[k]@),
                    ) == Some(h) by {
                        if exists|k: int| 0 <= k < i + 1 && fetch_id(encode_utf8(#[trigger] lines@[k]@)) == Some(h) {
                            let k = choose|k: int| 0 <= k < i + 1 && fetch_id(encode_utf8(#[trigger] lines@[k]@)) == Some(h);
                            if k == i {
                                assert(h == id@);
                            }
                        }
                    }
                }
            }
        } else {
            proof {
                assert(fetch_id(encode_utf8(lines@[i as int]@)) is None);
                assert forall|h: Seq<u8>| #[trigger] ids_view(out@).contains(h) <==> exists|k: int| 0 <= k < i + 1 && fetch_id(
                    encode_utf8(#[trigger] lines@[k]@),
                ) == Some(h) by {
                    if exists|k: int| 0 <= k < i + 1 && fetch_id(encode_utf8(#[trigger] lines@[k]@)) == Some(h) {
                        let k = choose|k: int| 0 <= k < i + 1 && fetch_id(encode_utf8(#[trigger] lines@[k]@)) == Some(h);
                        assert(k != i);
                    }
                }
            }
        }
        i = i + 1;
    }
    out
}

/// How a listing of upstream refs answers whether `remote_ref` exists:
/// lines are read in order, each must be `<id> <name>`, and the first line
/// naming the branch settles it.
pub open spec fn listing_has(lines: Seq<Seq<u8>>, remote_ref: Seq<u8>) -> Result<bool, ProtocolError>
    decreases lines.len(),
{
    if lines.len() == 0 {
        Ok(false)
    } else if words(lines[0]).len() != 2 {
        Err(ProtocolError::UnexpectedOutput)
    } else if words(lines[0])[1] == remote_ref {
        Ok(true)
    } else {
        listing_has(lines.drop_first(), remote_ref)
    }
}

/// Whether the upstream listing names the configured branch.
pub fn upstream_branch_listed(lines: &Vec<Vec<u8>>, remote_ref: &[u8]) -> (r: Result<bool, ProtocolError>)
    ensures
        r == listing_has(ids_view(lines@), remote_ref@),
{
    let mut i: usize = 0;
    assert(ids_view(lines@).skip(0) =~= ids_view(lines@));
    while i < lines.len()
        invariant
            0 <= i <= lines@.len(),
            listing_has(ids_view(lines@), remote_ref@) == listing_has(ids_view(lines@).skip(i as int), remote_ref@),
        decreases lines@.len() - i,
    {
        let ws = split_words(lines[i].as_slice());
        proof {
            let t = ids_view(lines@).skip(i as int);
            assert(t[0] == lines@[i as int]@);
            assert(t.drop_first() =~= ids_view(lines@).skip(i as int + 1));
            assert(bytes_view(ws@).len() == ws@.len());
        }
        if ws.len() != 2 {
            return Err(ProtocolError::UnexpectedOutput);
        }
        proof {
            assert(bytes_view(ws@)[1] == ws@[1]@);
        }
        if bytes_eq(ws[1].as_slice(), remote_ref) {
            return Ok(true);
        }
        i = i + 1;
    }
    proof {
        assert(ids_view(lines@).skip(lines@.len() as int) =~= Seq::<Seq<u8>>::empty());
    }
    Ok(false)
}

/// Anchoring refs beyond this many are folded into one commit.
pub const MAX_ANCHOR_REFS: usize = 50;

/// Whether the anchoring refs should be folded into one.
pub fn needs_compaction(anchor_refs: usize) -> (r: bool)
    ensures
        r == (anchor_refs > MAX_ANCHOR_REFS),
{
    anchor_refs > MAX_ANCHOR_REFS
}

/// Relies on `String::from_utf8`: the bytes as text exactly when they are
/// valid UTF-8.
#[verifier::external_body]
fn text_of(bytes: Vec<u8>) -> (r: Option<String>)
    ensures
        r is Some <==> vstd::utf8::valid_utf8(bytes@),
        r matches Some(s) ==> encode_utf8(s@) == bytes@,
{
    String::from_utf8(bytes).ok()
}

/// A captured output stream for an error message: its text, or its bytes in
/// hexadecimal when it is not UTF-8, or a note that there was none.
pub fn debug_stream_message(stream: Option<Vec<u8>>, sn: &str) -> (r: String)
    ensures
        stream matches Some(b) ==> (vstd::utf8::valid_utf8(b@) ==> encode_utf8(r@) == b@),
        stream matches Some(b) ==> (!vstd::utf8::valid_utf8(b@) ==> r@ == "<utf error> "@ + crate::codec::hex_of(b@)),
        stream is None ==> r@ == "<no "@ + sn@ + ">"@,
{
    match stream {
        Some(b) => {
            let ghost bv = b@;
            let copy = crate::bytes::copy_bytes(b.as_slice());
            match text_of(b) {
                Some(s) => s,
                None => {
                    let mut m = String::from_str("<utf error> ");
                    let h = crate::codec::to_hex(copy.as_slice());
                    m.append(h.as_str());
                    m
                },
            }
        },
        None => {
            let mut m = String::from_str("<no ");
            m.append(sn);
            m.append(">");
            m
        },
    }
}

} // verus!
