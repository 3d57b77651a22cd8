//! Shell commands as plain values: what to run, and what to answer once it
//! has run.
use vstd::prelude::*;
use crate::text::string_views;

verus! {

/// A program and its arguments, to be started by the caller.
#[derive(Clone, Debug, PartialEq, Eq)]
pub struct ShellCommand {
    pub program: String,
    pub args: Vec<String>,
}

impl ShellCommand {
    pub open spec fn program_view(&self) -> Seq<char> {
        self.program@
    }

    pub open spec fn args_view(&self) -> Seq<Seq<char>> {
        string_views(self.args@)
    }
}

/// The answer to a command whose output was read: its standard output where
/// the command ran and that output is UTF-8, a fixed complaint otherwise.
pub open spec fn output_reply_spec(output: Option<Seq<u8>>) -> Seq<char> {
    match output {
        None => "now that didn't work..."@,
        Some(bytes) => if vstd::utf8::valid_utf8(bytes) {
            vstd::utf8::decode_utf8(bytes)
        } else {
            "something went wrong here."@
        },
    }
}

pub open spec fn bytes_view(output: Option<Vec<u8>>) -> Option<Seq<u8>> {
    match output {
        Some(b) => Some(b@),
        None => None,
    }
}

/// A command that printed a text is answered with exactly that text.
pub proof fn lemma_output_reply_text(out: Seq<char>)
    ensures
        output_reply_spec(Some(vstd::utf8::encode_utf8(out))) == out,
{
    vstd::utf8::encode_utf8_valid_utf8(out);
    vstd::utf8::encode_utf8_decode_utf8(out);
}

/// Reads `bytes` as text through std's `std::str::from_utf8`, which the
/// documentation describes as succeeding exactly when the bytes are valid
/// UTF-8, and then giving the text that they encode.
#[verifier::external_body]
fn str_from_utf8(bytes: &[u8]) -> (r: Option<&str>)
    ensures
        r is Some <==> vstd::utf8::valid_utf8(bytes@),
        r matches Some(s) ==> s@ == vstd::utf8::decode_utf8(bytes@),
{
    match std::str::from_utf8(bytes) {
        Ok(s) => Some(s),
        Err(_) => None,
    }
}

/// The answer to a command that was run: `output` is its standard output,
/// or `None` where it could not be run.
pub fn command_output_reply(output: Option<Vec<u8>>) -> (r: String)
    ensures
        r@ == output_reply_spec(bytes_view(output)),
{
    match output {
        None => String::from_str("now that didn't work..."),
        Some(bytes) => {
            match str_from_utf8(bytes.as_slice()) {
                Some(s) => String::from_str(s),
                None => String::from_str("something went wrong here."),
            }
        },
    }
}

} // verus!
