use vstd::prelude::*;

use crate::command::get_command;
use crate::command::get_command_spec;
use crate::command::Command;
use crate::command::CommandModel;
use crate::parser::ParsingError;
use crate::store::live_value;
use crate::store::lookup_models;
use crate::store::updated;
use crate::store::EntryModel;
use crate::store::Store;

verus! {

/// A one-line reply: a marker byte, the text, the terminator.
pub open spec fn tagged_reply(marker: u8, text: Seq<u8>) -> Seq<u8> {
    seq![marker] + text + seq![0x0Du8, 0x0Au8]
}

/// A simple-string reply.
pub open spec fn simple_reply(text: Seq<u8>) -> Seq<u8> {
    tagged_reply(0x2B, text)
}

/// An error reply.
pub open spec fn error_reply(text: Seq<u8>) -> Seq<u8> {
    tagged_reply(0x2D, text)
}

/// The null reply, sent when a `get` finds no live value.
pub open spec fn null_reply() -> Seq<u8> {
    seq![0x24u8, 0x2Du8, 0x31u8, 0x0Du8, 0x0Au8]
}

/// The text `PONG`.
pub open spec fn pong_text() -> Seq<u8> {
    seq![0x50u8, 0x4Fu8, 0x4Eu8, 0x47u8]
}

/// The text `OK`.
pub open spec fn ok_text() -> Seq<u8> {
    seq![0x4Fu8, 0x4Bu8]
}

/// The text `Unknown command`.
pub open spec fn unknown_command_text() -> Seq<u8> {
    seq![
        0x55u8, 0x6Eu8, 0x6Bu8, 0x6Eu8, 0x6Fu8, 0x77u8, 0x6Eu8, 0x20u8, 0x63u8, 0x6Fu8,
        0x6Du8, 0x6Du8, 0x61u8, 0x6Eu8, 0x64u8,
    ]
}

/// The text `Unknown error`.
pub open spec fn unknown_error_text() -> Seq<u8> {
    seq![
        0x55u8, 0x6Eu8, 0x6Bu8, 0x6Eu8, 0x6Fu8, 0x77u8, 0x6Eu8, 0x20u8, 0x65u8, 0x72u8,
        0x72u8, 0x6Fu8, 0x72u8,
    ]
}

/// The outcome one request leaves behind, read against the clock at
/// `now`: the store mapping after the request, and the reply bytes.
pub open spec fn reply_for(
    d: Result<CommandModel, ParsingError>,
    m: Map<Seq<u8>, EntryModel>,
    now: u128,
) -> (Map<Seq<u8>, EntryModel>, Seq<u8>) {
    match d {
        Result::Ok(CommandModel::Ping) => (m, simple_reply(pong_text())),
        Result::Ok(CommandModel::Echo(t)) => (m, simple_reply(t)),
        Result::Ok(CommandModel::Get(k)) => (
            m,
            match live_value(m, k, now) {
                Option::Some(v) => simple_reply(v),
                Option::None => null_reply(),
            },
        ),
        Result::Ok(CommandModel::SetValue(k, v, e)) => (
            updated(m, k, v, e, now),
            simple_reply(ok_text()),
        ),
        Result::Ok(CommandModel::Unknown) => (m, error_reply(unknown_command_text())),
        Result::Err(_) => (m, error_reply(unknown_error_text())),
    }
}

/// Appends the bytes of `text` to `out`.
#[verifier::loop_isolation(false)]
fn append_bytes(out: &mut Vec<u8>, text: &Vec<u8>)
    ensures
        final(out)@ == old(out)@ + text@,
{
    let n: usize = text.len();
    let mut i: usize = 0;
    while i < n
        invariant
            i <= n,
            out@ == old(out)@ + text@.subrange(0, i as int),
        decreases n - i,
    {
        out.push(text[i]);
        proof {
            assert(old(out)@ + text@.subrange(0, i + 1) =~= (old(out)@ + text@.subrange(
                0,
                i as int,
            )).push(text@[i as int]));
        }
        i = i + 1;
    }
    proof {
        assert(text@.subrange(0, n as int) =~= text@);
    }
}

/// Builds a one-line reply around `text`.
fn build_reply(marker: u8, text: &Vec<u8>) -> (r: Vec<u8>)
    ensures
        r@ == tagged_reply(marker, text@),
{
    let mut out: Vec<u8> = Vec::new();
    out.push(marker);
    proof {
        assert(out@ =~= Seq::<u8>::empty().push(marker));
    }
    append_bytes(&mut out, text);
    out.push(0x0D);
    out.push(0x0A);
    proof {
        assert(out@ =~= tagged_reply(marker, text@));
    }
    out
}

/// Builds the null reply.
fn build_null_reply() -> (r: Vec<u8>)
    ensures
        r@ == null_reply(),
{
    let mut out: Vec<u8> = Vec::new();
    out.push(0x24);
    out.push(0x2D);
    out.push(0x31);
    out.push(0x0D);
    out.push(0x0A);
    proof {
        assert(out@ =~= null_reply());
    }
    out
}

/// The text `PONG` as bytes.
fn pong_word() -> (r: Vec<u8>)
    ensures
        r@ == pong_text(),
{
    let mut v: Vec<u8> = Vec::new();
    v.push(0x50);
    v.push(0x4F);
    v.push(0x4E);
    v.push(0x47);
    proof {
        assert(v@ =~= pong_text());
    }
    v
}

/// The text `OK` as bytes.
fn ok_word() -> (r: Vec<u8>)
    ensures
        r@ == ok_text(),
{
    let mut v: Vec<u8> = Vec::new();
    v.push(0x4F);
    v.push(0x4B);
    proof {
        assert(v@ =~= ok_text());
    }
    v
}

/// The text `Unknown command` as bytes.
fn unknown_command_word() -> (r: Vec<u8>)
    ensures
        r@ == unknown_command_text(),
{
    let mut v: Vec<u8> = Vec::new();
    v.push(0x55);
    v.push(0x6E);
    v.push(0x6B);
    v.push(0x6E);
    v.push(0x6F);
    v.push(0x77);
    v.push(0x6E);
    v.push(0x20);
    v.push(0x63);
    v.push(0x6F);
    v.push(0x6D);
    v.push(0x6D);
    v.push(0x61);
    v.push(0x6E);
    v.push(0x64);
    proof {
        assert(v@ =~= unknown_command_text());
    }
    v
}

/// The text `Unknown error` as bytes.
fn unknown_error_word() -> (r: Vec<u8>)
    ensures
        r@ == unknown_error_text(),
{
    let mut v: Vec<u8> = Vec::new();
    v.push(0x55);
    v.push(0x6E);
    v.push(0x6B);
    v.push(0x6E);
    v.push(0x6F);
    v.push(0x77);
    v.push(0x6E);
    v.push(0x20);
    v.push(0x65);
    v.push(0x72);
    v.push(0x72);
    v.push(0x6F);
    v.push(0x72);
    proof {
        assert(v@ =~= unknown_error_text());
    }
    v
}

/// Serves one request from the buffer against the store: decode,
/// interpret, run the command, and return the reply bytes, with the
/// clock read once at some instant during the call.
pub fn handle_message(store: &mut Store, buffer: &[u8]) -> (r: Vec<u8>)
    requires
        old(store).wf(),
    ensures
        final(store).wf(),
        exists|now: u128|
            (final(store)@, r@) == reply_for(get_command_spec(buffer@), old(store)@, now),
{
    match get_command(buffer) {
        Result::Ok(Command::Ping) => {
            let r = build_reply(0x2B, &pong_word());
            proof {
                assert((store@, r@) == reply_for(get_command_spec(buffer@), old(store)@, 0u128));
            }
            r
        },
        Result::Ok(Command::Echo { print }) => {
            let r = build_reply(0x2B, &print);
            proof {
                assert((store@, r@) == reply_for(get_command_spec(buffer@), old(store)@, 0u128));
            }
            r
        },
        Result::Ok(Command::Get { key }) => {
            let ghost k = key@;
            let looked = store.get(key);
            let ghost now = choose|now: u128|
                lookup_models(looked, live_value(store@, k, now));
            match looked {
                Option::Some(v) => {
                    let r = build_reply(0x2B, &v);
                    proof {
                        assert((store@, r@) == reply_for(
                            get_command_spec(buffer@),
                            old(store)@,
                            now,
                        ));
                    }
                    r
                },
                Option::None => {
                    let r = build_null_reply();
                    proof {
                        assert((store@, r@) == reply_for(
                            get_command_spec(buffer@),
                            old(store)@,
                            now,
                        ));
                    }
                    r
                },
            }
        },
        Result::Ok(Command::SetValue { key, value, expiry }) => {
            let ghost k = key@;
            let ghost val = value@;
            store.set(key, value, expiry);
            let ghost now = choose|now: u128| store@ == updated(old(store)@, k, val, expiry, now);
            let r = build_reply(0x2B, &ok_word());
            proof {
                assert((store@, r@) == reply_for(get_command_spec(buffer@), old(store)@, now));
            }
            r
        },
        Result::Ok(Command::Unknown) => {
            let r = build_reply(0x2D, &unknown_command_word());
            proof {
                assert((store@, r@) == reply_for(get_command_spec(buffer@), old(store)@, 0u128));
            }
            r
        },
        Result::Err(_) => {
            let r = build_reply(0x2D, &unknown_error_word());
            proof {
                assert((store@, r@) == reply_for(get_command_spec(buffer@), old(store)@, 0u128));
            }
            r
        },
    }
}

} // verus!
