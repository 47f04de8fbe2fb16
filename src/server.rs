//! The decisions of the connection loop. The loop itself (accepting,
//! reading and writing sockets) runs outside; it hands each read here as an
//! event and carries out the action that comes back.
use vstd::prelude::*;
use crate::codec::{
    concat_frames, decode_from, frame_command, is_whole_frame, lemma_pipelined_frames,
    parse_message, views_of, CommandModel, ReservedKeys,
};
use crate::command::{command_effect, execute, reply_view, simple_reply};
use crate::store::{EntryModel, Store};

verus! {

/// Runs `cs` in order on the store `m` at time `now`: the store after them
/// and the replies they gave, in order (commands without a reply add none).
pub open spec fn run_commands(m: Map<Seq<u8>, EntryModel>, cs: Seq<CommandModel>, now: u64) -> (
    Map<Seq<u8>, EntryModel>,
    Seq<Seq<u8>>,
)
    decreases cs.len(),
{
    if cs.len() == 0 {
        (m, Seq::empty())
    } else {
        let (m1, rs) = run_commands(m, cs.drop_last(), now);
        let (m2, r) = command_effect(m1, cs.last(), now);
        (
            m2,
            match r {
                Ok(Some(x)) => rs.push(x),
                _ => rs,
            },
        )
    }
}

/// A command that always gets a reply: a known keyword with the arguments
/// it needs.
pub open spec fn always_answers(c: CommandModel) -> bool {
    match c.keyword {
        ReservedKeys::PING => true,
        ReservedKeys::ECHO => c.args.len() >= 1,
        ReservedKeys::GET => c.args.len() >= 1,
        ReservedKeys::SET => c.args.len() >= 2,
        ReservedKeys::UNKNOWN => false,
    }
}

/// The reply of `c` on the store `m` at time `now`.
pub open spec fn reply_of(m: Map<Seq<u8>, EntryModel>, c: CommandModel, now: u64) -> Seq<u8> {
    command_effect(m, c, now).1->Ok_0->Some_0
}

/// Commands that always answer, run in order, give one reply each, in the
/// same order: the i-th reply is that of the i-th command on the store left
/// by the commands before it.
pub proof fn lemma_one_reply_each(m: Map<Seq<u8>, EntryModel>, cs: Seq<CommandModel>, now: u64)
    requires
        forall|i: int| 0 <= i < cs.len() ==> always_answers(#[trigger] cs[i]),
    ensures
        run_commands(m, cs, now).1.len() == cs.len(),
        forall|i: int|
            0 <= i < cs.len() ==> #[trigger] run_commands(m, cs, now).1[i] == reply_of(
                run_commands(m, cs.subrange(0, i), now).0,
                cs[i],
                now,
            ),
    decreases cs.len(),
{
    if cs.len() > 0 {
        let init = cs.drop_last();
        assert forall|i: int| 0 <= i < init.len() implies always_answers(#[trigger] init[i]) by {
            assert(init[i] == cs[i]);
        }
        lemma_one_reply_each(m, init, now);
        assert(always_answers(cs.last()));
        assert forall|i: int| 0 <= i < cs.len() implies #[trigger] run_commands(m, cs, now).1[i]
            == reply_of(run_commands(m, cs.subrange(0, i), now).0, cs[i], now) by {
            if i < init.len() {
                assert(init.subrange(0, i) =~= cs.subrange(0, i));
                assert(init[i] == cs[i]);
            } else {
                assert(cs.subrange(0, i) =~= init);
            }
        }
    }
}

/// Once a key holds a value without expiry, any number of GETs of it answer
/// that value, in order, and leave the store unchanged.
pub proof fn lemma_repeated_gets(
    m: Map<Seq<u8>, EntryModel>,
    key: Seq<u8>,
    gets: Seq<CommandModel>,
    now: u64,
)
    requires
        m.contains_key(key),
        m[key].expiry is None,
        forall|i: int|
            0 <= i < gets.len() ==> (#[trigger] gets[i]).keyword == ReservedKeys::GET
                && gets[i].args.len() >= 1 && gets[i].args[0] == key,
    ensures
        run_commands(m, gets, now) == (
            m,
            Seq::new(gets.len(), |i: int| simple_reply(m[key].value)),
        ),
    decreases gets.len(),
{
    if gets.len() > 0 {
        let init = gets.drop_last();
        assert forall|i: int| 0 <= i < init.len() implies (#[trigger] init[i]).keyword
            == ReservedKeys::GET && init[i].args.len() >= 1 && init[i].args[0] == key by {
            assert(init[i] == gets[i]);
        }
        lemma_repeated_gets(m, key, init, now);
        assert(gets.last() == gets[gets.len() - 1]);
        assert(Seq::new(init.len(), |i: int| simple_reply(m[key].value)).push(
            simple_reply(m[key].value),
        ) =~= Seq::new(gets.len(), |i: int| simple_reply(m[key].value)));
    }
}

/// Handling of a chunk of bytes that arrived on a connection whose
/// not-yet-decoded bytes are `pending`: the store afterwards, the replies to
/// send back in order, and the bytes kept for the next chunk.
pub open spec fn feed_effect(
    m: Map<Seq<u8>, EntryModel>,
    pending: Seq<u8>,
    bytes: Seq<u8>,
    now: u64,
) -> (Map<Seq<u8>, EntryModel>, Seq<Seq<u8>>, Seq<u8>) {
    let buf = pending + bytes;
    let (cs, used) = decode_from(buf, 0);
    let (m2, rs) = run_commands(m, cs, now);
    (m2, rs, buf.subrange(used as int, buf.len() as int))
}

/// Pipelining: when a connection with nothing pending receives a chunk of
/// whole frames back to back, each of whose commands always answers, it gets
/// one reply per frame, in the order of the frames, and nothing stays
/// pending.
pub proof fn lemma_pipelined_replies(m: Map<Seq<u8>, EntryModel>, fs: Seq<Seq<u8>>, now: u64)
    requires
        forall|i: int| 0 <= i < fs.len() ==> is_whole_frame(#[trigger] fs[i]),
        forall|i: int| 0 <= i < fs.len() ==> always_answers(frame_command(#[trigger] fs[i])),
    ensures
        ({
            let cs = fs.map_values(|f: Seq<u8>| frame_command(f));
            let (m2, rs, rest) = feed_effect(m, Seq::empty(), concat_frames(fs), now);
            &&& rs.len() == fs.len()
            &&& forall|i: int|
                0 <= i < fs.len() ==> #[trigger] rs[i] == reply_of(
                    run_commands(m, cs.subrange(0, i), now).0,
                    cs[i],
                    now,
                )
            &&& rest.len() == 0
        }),
{
    let cs = fs.map_values(|f: Seq<u8>| frame_command(f));
    let buf = concat_frames(fs);
    assert(Seq::<u8>::empty() + buf =~= buf);
    lemma_pipelined_frames(fs);
    assert forall|i: int| 0 <= i < cs.len() implies always_answers(#[trigger] cs[i]) by {
        assert(always_answers(frame_command(fs[i])));
    }
    lemma_one_reply_each(m, cs, now);
}

/// One client connection: the bytes read from it that do not yet make a
/// whole frame.
pub struct Session {
    pending: Vec<u8>,
}

impl View for Session {
    type V = Seq<u8>;

    closed spec fn view(&self) -> Seq<u8> {
        self.pending@
    }
}

impl Session {
    pub fn new() -> (r: Session)
        ensures
            r@ == Seq::<u8>::empty(),
    {
        Session { pending: Vec::new() }
    }

    /// Number of bytes waiting for the rest of their frame.
    pub fn pending_len(&self) -> (r: usize)
        ensures
            r == self@.len(),
    {
        self.pending.len()
    }

    /// Appends `bytes`, decodes and runs every whole frame now buffered, and
    /// keeps what is left for the next chunk. Returns the replies in order.
    pub fn feed(&mut self, store: &mut Store, bytes: Vec<u8>, now: u64) -> (r: Vec<Vec<u8>>)
        requires
            old(store).wf(),
        ensures
            final(store).wf(),
            (final(store)@, views_of(r@), final(self)@) == feed_effect(
                old(store)@,
                old(self)@,
                bytes@,
                now,
            ),
    {
        let mut bytes = bytes;
        self.pending.append(&mut bytes);
        let ghost buf = self.pending@;
        let (cmds, used) = parse_message(&self.pending);
        let ghost cs = decode_from(buf, 0).0;
        let ghost m0 = store@;
        let mut replies: Vec<Vec<u8>> = Vec::new();
        let mut i: usize = 0;
        while i < cmds.len()
            invariant
                store.wf(),
                i <= cmds@.len(),
                cs == cmds@.map_values(|c: crate::codec::Command| c@),
                (store@, views_of(replies@)) == run_commands(m0, cs.subrange(0, i as int), now),
            decreases cmds.len() - i,
        {
            let ghost before = views_of(replies@);
            let r = execute(store, &cmds[i], now);
            assert(cs.subrange(0, i + 1).drop_last() =~= cs.subrange(0, i as int));
            assert(cs.subrange(0, i + 1).last() == cmds@[i as int]@);
            match r {
                Ok(Some(bytes)) => {
                    replies.push(bytes);
                    assert(views_of(replies@) =~= before.push(reply_view(r)->Ok_0->Some_0));
                },
                _ => {},
            }
            i = i + 1;
        }
        assert(cs.subrange(0, cs.len() as int) =~= cs);
        let rest = self.pending.split_off(used);
        self.pending = rest;
        replies
    }
}

/// What happened when the loop tried to read a connection.
pub enum ReadEvent {
    /// These bytes arrived.
    Data(Vec<u8>),
    /// Nothing is available yet.
    NoData,
    /// The peer closed the connection, or the read failed.
    Closed,
}

/// What the loop should do with the connection.
pub enum Action {
    /// Write these replies to it, in order.
    Reply(Vec<Vec<u8>>),
    /// Leave it as it is until the next pass.
    Idle,
    /// Close it and forget it.
    Disconnect,
}

pub struct ServerModel {
    pub store: Map<Seq<u8>, EntryModel>,
    pub sessions: Seq<Seq<u8>>,
}

/// The store and the live connections, in the order they were accepted.
pub struct Server {
    store: Store,
    sessions: Vec<Session>,
}

impl View for Server {
    type V = ServerModel;

    closed spec fn view(&self) -> ServerModel {
        ServerModel {
            store: self.store@,
            sessions: self.sessions@.map_values(|s: Session| s@),
        }
    }
}

impl Server {
    pub closed spec fn wf(&self) -> bool {
        self.store.wf()
    }

    pub fn new() -> (r: Server)
        ensures
            r.wf(),
            r@.store == Map::<Seq<u8>, EntryModel>::empty(),
            r@.sessions == Seq::<Seq<u8>>::empty(),
    {
        let r = Server { store: Store::new(), sessions: Vec::new() };
        assert(r@.sessions =~= Seq::<Seq<u8>>::empty());
        r
    }

    /// The store shared by every connection.
    pub fn store(&self) -> (r: &Store)
        requires
            self.wf(),
        ensures
            r.wf(),
            r@ == self@.store,
    {
        &self.store
    }

    pub fn connections(&self) -> (r: usize)
        ensures
            r == self@.sessions.len(),
    {
        self.sessions.len()
    }

    /// Takes on a newly accepted connection; it gets the last index.
    pub fn connect(&mut self) -> (r: usize)
        requires
            old(self).wf(),
        ensures
            final(self).wf(),
            r == old(self)@.sessions.len(),
            final(self)@.store == old(self)@.store,
            final(self)@.sessions == old(self)@.sessions.push(Seq::empty()),
    {
        let ghost before = self@.sessions;
        let r = self.sessions.len();
        self.sessions.push(Session::new());
        assert(self@.sessions =~= before.push(Seq::empty()));
        r
    }

    /// Decides what to do after a read on connection `i`. Data is decoded
    /// and run against the store; a closed connection is to be dropped and
    /// nothing else changes.
    pub fn on_read(&mut self, i: usize, event: ReadEvent, now: u64) -> (r: Action)
        requires
            old(self).wf(),
            i < old(self)@.sessions.len(),
        ensures
            final(self).wf(),
            match event {
                ReadEvent::Data(bytes) => {
                    let (m, rs, rest) = feed_effect(
                        old(self)@.store,
                        old(self)@.sessions[i as int],
                        bytes@,
                        now,
                    );
                    &&& r matches Action::Reply(out) && views_of(out@) == rs
                    &&& final(self)@.store == m
                    &&& final(self)@.sessions == old(self)@.sessions.update(i as int, rest)
                },
                ReadEvent::NoData => r is Idle && final(self)@ == old(self)@,
                ReadEvent::Closed => r is Disconnect && final(self)@ == old(self)@,
            },
    {
        match event {
            ReadEvent::Data(bytes) => {
                let ghost before = self@.sessions;
                let mut session = self.sessions.remove(i);
                let out = session.feed(&mut self.store, bytes, now);
                self.sessions.insert(i, session);
                assert(self@.sessions =~= before.update(i as int, session@));
                Action::Reply(out)
            },
            ReadEvent::NoData => Action::Idle,
            ReadEvent::Closed => Action::Disconnect,
        }
    }

    /// Forgets connection `i`; the others keep their order and their
    /// pending bytes, and the store is untouched.
    pub fn disconnect(&mut self, i: usize)
        requires
            old(self).wf(),
            i < old(self)@.sessions.len(),
        ensures
            final(self).wf(),
            final(self)@.store == old(self)@.store,
            final(self)@.sessions == old(self)@.sessions.remove(i as int),
    {
        let ghost before = self@.sessions;
        self.sessions.remove(i);
        assert(self@.sessions =~= before.remove(i as int));
    }
}

} // verus!
