//! The command interpreter: one command, applied to the store, gives at most
//! one reply.
use vstd::prelude::*;
use crate::codec::{
    copy_range, decimal_value, eq_ignore_case, is_u64_decimal, matches_ignore_case, parse_number,
    Command, CommandModel, ReservedKeys, CR, LF,
};
use crate::store::{is_expired, EntryModel, Store, ValueWithExpiry};

verus! {

/// Why a command was skipped without a reply.
#[derive(Clone, Copy, Debug, PartialEq, Eq, Structural)]
pub enum CommandError {
    /// The command lacks an argument it needs (a key, a value, an echo text).
    MissingArgument,
}

pub const PLUS: u8 = 43;

/// `+<text>\r\n`
pub open spec fn simple_reply(text: Seq<u8>) -> Seq<u8> {
    seq![PLUS] + text + seq![CR, LF]
}

/// `$-1\r\n`: the key is absent or has just expired.
pub open spec fn null_reply() -> Seq<u8> {
    seq![36u8, 45, 49, CR, LF]
}

/// `+PONG\r\n`
pub open spec fn pong_reply() -> Seq<u8> {
    simple_reply(seq![80u8, 79, 78, 71])
}

/// `+OK\r\n`
pub open spec fn ok_reply() -> Seq<u8> {
    simple_reply(seq![79u8, 75])
}

pub open spec fn px_word() -> Seq<u8> {
    seq![80u8, 88]
}

/// The time-to-live given to a SET: `PX <milliseconds>` after key and value.
pub open spec fn ttl_of(args: Seq<Seq<u8>>) -> Option<u64> {
    if args.len() >= 4 && eq_ignore_case(args[2], px_word()) && is_u64_decimal(args[3]) {
        Some(decimal_value(args[3]) as u64)
    } else {
        None
    }
}

/// What a command does to the store `m` at time `now`, and what it answers:
/// `Ok(Some(bytes))` a reply, `Ok(None)` no reply (unknown command), or an
/// error for a command that lacks an argument (the store is left as it is).
pub open spec fn command_effect(m: Map<Seq<u8>, EntryModel>, c: CommandModel, now: u64) -> (
    Map<Seq<u8>, EntryModel>,
    Result<Option<Seq<u8>>, CommandError>,
) {
    match c.keyword {
        ReservedKeys::PING => (m, Ok(Some(pong_reply()))),
        ReservedKeys::ECHO => if c.args.len() >= 1 {
            (m, Ok(Some(simple_reply(c.args[0]))))
        } else {
            (m, Err(CommandError::MissingArgument))
        },
        ReservedKeys::SET => if c.args.len() >= 2 {
            (
                m.insert(
                    c.args[0],
                    EntryModel { value: c.args[1], expiry: ttl_of(c.args), insert_time: now },
                ),
                Ok(Some(ok_reply())),
            )
        } else {
            (m, Err(CommandError::MissingArgument))
        },
        ReservedKeys::GET => if c.args.len() >= 1 {
            let k = c.args[0];
            if !m.contains_key(k) {
                (m, Ok(Some(null_reply())))
            } else if is_expired(m[k], now) {
                (m.remove(k), Ok(Some(null_reply())))
            } else {
                (m, Ok(Some(simple_reply(m[k].value))))
            }
        } else {
            (m, Err(CommandError::MissingArgument))
        },
        ReservedKeys::UNKNOWN => (m, Ok(None)),
    }
}

pub open spec fn reply_view(r: Result<Option<Vec<u8>>, CommandError>) -> Result<
    Option<Seq<u8>>,
    CommandError,
> {
    match r {
        Ok(Some(v)) => Ok(Some(v@)),
        Ok(None) => Ok(None),
        Err(e) => Err(e),
    }
}

/// Builds `+<text>\r\n`.
pub fn make_simple_reply(text: &Vec<u8>) -> (r: Vec<u8>)
    ensures
        r@ == simple_reply(text@),
{
    let mut r: Vec<u8> = Vec::new();
    r.push(PLUS);
    let mut i: usize = 0;
    while i < text.len()
        invariant
            i <= text@.len(),
            r@ == seq![PLUS] + text@.subrange(0, i as int),
        decreases text.len() - i,
    {
        r.push(text[i]);
        i = i + 1;
        assert(r@ =~= seq![PLUS] + text@.subrange(0, i as int));
    }
    r.push(CR);
    r.push(LF);
    assert(r@ =~= simple_reply(text@));
    r
}

/// Reads the time-to-live option of a SET's arguments.
fn parse_ttl(args: &Vec<Vec<u8>>) -> (r: Option<u64>)
    ensures
        r == ttl_of(args@.map_values(|w: Vec<u8>| w@)),
{
    let ghost views = args@.map_values(|w: Vec<u8>| w@);
    if args.len() < 4 {
        return None;
    }
    let px: Vec<u8> = vec![80u8, 88];
    assert(px@ =~= px_word());
    if !matches_ignore_case(&args[2], &px) {
        return None;
    }
    let n = &args[3];
    assert(n@.subrange(0, n@.len() as int) =~= n@);
    parse_number(n, 0, n.len())
}

/// Applies one command to the store at time `now` (milliseconds of a
/// monotonic clock) and returns its reply, as `command_effect` says.
pub fn execute(store: &mut Store, cmd: &Command, now: u64) -> (r: Result<
    Option<Vec<u8>>,
    CommandError,
>)
    requires
        old(store).wf(),
    ensures
        final(store).wf(),
        (final(store)@, reply_view(r)) == command_effect(old(store)@, cmd@, now),
{
    let args = &cmd.args;
    match cmd.keyword {
        ReservedKeys::PING => {
            let pong: Vec<u8> = vec![80u8, 79, 78, 71];
            Ok(Some(make_simple_reply(&pong)))
        },
        ReservedKeys::ECHO => {
            if args.len() >= 1 {
                Ok(Some(make_simple_reply(&args[0])))
            } else {
                Err(CommandError::MissingArgument)
            }
        },
        ReservedKeys::SET => {
            if args.len() >= 2 {
                let key = copy_range(&args[0], 0, args[0].len());
                let value = copy_range(&args[1], 0, args[1].len());
                assert(key@ =~= args[0]@);
                assert(value@ =~= args[1]@);
                let expiry = parse_ttl(args);
                store.set(key, ValueWithExpiry { value, expiry, insert_time: now });
                let ok: Vec<u8> = vec![79u8, 75];
                Ok(Some(make_simple_reply(&ok)))
            } else {
                Err(CommandError::MissingArgument)
            }
        },
        ReservedKeys::GET => {
            if args.len() >= 1 {
                let key = &args[0];
                let null: Vec<u8> = vec![36u8, 45, 49, CR, LF];
                let found = match store.get(key) {
                    None => None,
                    Some(v) => Some((v.has_expired(now), make_simple_reply(&v.value))),
                };
                match found {
                    None => Ok(Some(null)),
                    Some((true, _)) => {
                        store.remove(key);
                        Ok(Some(null))
                    },
                    Some((false, reply)) => Ok(Some(reply)),
                }
            } else {
                Err(CommandError::MissingArgument)
            }
        },
        ReservedKeys::UNKNOWN => Ok(None),
    }
}

/// PING answers `+PONG\r\n` whatever its arguments, and changes nothing.
pub proof fn lemma_ping_answers_pong(m: Map<Seq<u8>, EntryModel>, args: Seq<Seq<u8>>, now: u64)
    ensures
        command_effect(m, CommandModel { keyword: ReservedKeys::PING, args }, now) == (
            m,
            Ok::<Option<Seq<u8>>, CommandError>(Some(pong_reply())),
        ),
        pong_reply() =~= seq![43u8, 80, 79, 78, 71, 13, 10],
{
}

/// ECHO with one argument answers that argument unchanged, byte for byte,
/// between `+` and `\r\n`, and changes nothing.
pub proof fn lemma_echo_unchanged(m: Map<Seq<u8>, EntryModel>, text: Seq<u8>, now: u64)
    ensures
        ({
            let (m2, r) = command_effect(
                m,
                CommandModel { keyword: ReservedKeys::ECHO, args: seq![text] },
                now,
            );
            &&& m2 == m
            &&& r matches Ok(Some(bytes)) && bytes == simple_reply(text) && bytes.subrange(
                1,
                bytes.len() - 2,
            ) == text
        }),
{
    let bytes = simple_reply(text);
    assert(bytes.subrange(1, bytes.len() - 2) =~= text);
}

/// A SET without an expiry option, then a GET of the same key at any time,
/// answers the stored value and leaves the store as the SET left it; so
/// every further GET answers the same until the key is set again.
pub proof fn lemma_set_then_get(
    m: Map<Seq<u8>, EntryModel>,
    set_args: Seq<Seq<u8>>,
    set_time: u64,
    get_args: Seq<Seq<u8>>,
    now: u64,
)
    requires
        set_args.len() >= 2,
        ttl_of(set_args) is None,
        get_args.len() >= 1,
        get_args[0] == set_args[0],
    ensures
        ({
            let m1 = command_effect(
                m,
                CommandModel { keyword: ReservedKeys::SET, args: set_args },
                set_time,
            ).0;
            command_effect(m1, CommandModel { keyword: ReservedKeys::GET, args: get_args }, now)
                == (m1, Ok::<Option<Seq<u8>>, CommandError>(Some(simple_reply(set_args[1]))))
        }),
{
}

/// A SET with `PX ttl`: a GET at the same instant answers the value (for a
/// positive ttl); a GET after more than ttl milliseconds answers not-found
/// and removes the entry, so a GET after that answers not-found too.
pub proof fn lemma_set_with_ttl_then_get(
    m: Map<Seq<u8>, EntryModel>,
    set_args: Seq<Seq<u8>>,
    set_time: u64,
    ttl: u64,
    get_args: Seq<Seq<u8>>,
    later: u64,
    again: u64,
)
    requires
        set_args.len() >= 2,
        ttl_of(set_args) == Some(ttl),
        get_args.len() >= 1,
        get_args[0] == set_args[0],
    ensures
        ({
            let key = set_args[0];
            let get = CommandModel { keyword: ReservedKeys::GET, args: get_args };
            let m1 = command_effect(
                m,
                CommandModel { keyword: ReservedKeys::SET, args: set_args },
                set_time,
            ).0;
            &&& ttl > 0 ==> command_effect(m1, get, set_time) == (
                m1,
                Ok::<Option<Seq<u8>>, CommandError>(Some(simple_reply(set_args[1]))),
            )
            &&& later > set_time + ttl ==> command_effect(m1, get, later) == (
                m1.remove(key),
                Ok::<Option<Seq<u8>>, CommandError>(Some(null_reply())),
            )
            &&& command_effect(m1.remove(key), get, again) == (
                m1.remove(key),
                Ok::<Option<Seq<u8>>, CommandError>(Some(null_reply())),
            )
        }),
{
}

} // verus!
