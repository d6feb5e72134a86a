//! The commands that log entries carry, and their byte encoding: one tag byte
//! followed by a payload whose shape depends on the tag.

use crate::clock::NodeId;
use crate::error::Error;
use crate::membership::{strictly_ascending, Membership};
use crate::wire::{
    copy_bytes, get_u64, lemma_bytes_round_trip, lemma_u64_round_trip, put_tail, put_u64, u64_at,
    u64_bytes,
};
use vstd::prelude::*;
use vstd::slice::slice_subrange;

verus! {

pub const TAG_NOOP: u8 = 0;

pub const TAG_SNAPSHOT: u8 = 1;

pub const TAG_CLUSTER_CONFIGURATION: u8 = 2;

pub const TAG_USER: u8 = 3;

pub const TAG_KERNEL: u8 = 4;

/// What a log entry asks the lane to do once it is committed.
#[derive(Debug)]
pub enum Command {
    /// Emitted by a new leader to commit the entries of earlier terms.
    Noop,
    /// Marks a snapshot boundary and carries the membership at that point.
    Snapshot { membership: Membership },
    /// Replaces the membership.
    ClusterConfiguration { membership: Membership },
    /// An application command.
    User { bytes: Vec<u8> },
    /// A command of the core's own reserved channel.
    Kernel { bytes: Vec<u8> },
}

/// The mathematical content of a [`Command`].
pub enum CommandView {
    Noop,
    Snapshot(Seq<NodeId>),
    ClusterConfiguration(Seq<NodeId>),
    User(Seq<u8>),
    Kernel(Seq<u8>),
}

impl View for Command {
    type V = CommandView;

    open spec fn view(&self) -> CommandView {
        match self {
            Command::Noop => CommandView::Noop,
            Command::Snapshot { membership } => CommandView::Snapshot(membership@),
            Command::ClusterConfiguration { membership } => CommandView::ClusterConfiguration(
                membership@,
            ),
            Command::User { bytes } => CommandView::User(bytes@),
            Command::Kernel { bytes } => CommandView::Kernel(bytes@),
        }
    }
}

impl CommandView {
    /// A command is valid when the membership it carries, if any, is a set
    /// listed in ascending order.
    pub open spec fn valid(self) -> bool {
        match self {
            CommandView::Snapshot(m) => strictly_ascending(m) && m.len() <= u64::MAX,
            CommandView::ClusterConfiguration(m) => strictly_ascending(m) && m.len() <= u64::MAX,
            _ => true,
        }
    }

    /// The membership that the command carries, if it carries one.
    pub open spec fn membership(self) -> Option<Seq<NodeId>> {
        match self {
            CommandView::Snapshot(m) => Some(m),
            CommandView::ClusterConfiguration(m) => Some(m),
            _ => None,
        }
    }
}

/// The concatenated little-endian encodings of `ids`.
pub open spec fn ids_bytes(ids: Seq<NodeId>) -> Seq<u8> {
    Seq::new(8 * ids.len(), |k: int| u64_bytes(ids[k / 8])[k % 8])
}

/// A membership on the wire: the count, then each member.
pub open spec fn encode_ids(ids: Seq<NodeId>) -> Seq<u8> {
    u64_bytes(ids.len() as u64) + ids_bytes(ids)
}

/// The membership that `b` encodes, if it encodes one.
pub open spec fn decode_ids(b: Seq<u8>) -> Option<Seq<NodeId>> {
    if b.len() < 8 {
        None
    } else {
        let n = u64_at(b, 0) as int;
        if b.len() != 8 + 8 * n {
            None
        } else {
            let ids = Seq::new(n as nat, |i: int| u64_at(b, 8 + 8 * i));
            if strictly_ascending(ids) {
                Some(ids)
            } else {
                None
            }
        }
    }
}

/// The bytes that stand for a command.
pub open spec fn encode_command(c: CommandView) -> Seq<u8> {
    match c {
        CommandView::Noop => seq![TAG_NOOP],
        CommandView::Snapshot(m) => seq![TAG_SNAPSHOT] + encode_ids(m),
        CommandView::ClusterConfiguration(m) => seq![TAG_CLUSTER_CONFIGURATION] + encode_ids(m),
        CommandView::User(bytes) => seq![TAG_USER] + bytes,
        CommandView::Kernel(bytes) => seq![TAG_KERNEL] + bytes,
    }
}

/// The command that `b` stands for; `None` for an empty string, an unknown tag
/// or a malformed payload.
pub open spec fn decode_command(b: Seq<u8>) -> Option<CommandView> {
    if b.len() == 0 {
        None
    } else if b[0] == TAG_NOOP {
        if b.len() == 1 {
            Some(CommandView::Noop)
        } else {
            None
        }
    } else if b[0] == TAG_SNAPSHOT {
        match decode_ids(b.skip(1)) {
            Some(m) => Some(CommandView::Snapshot(m)),
            None => None,
        }
    } else if b[0] == TAG_CLUSTER_CONFIGURATION {
        match decode_ids(b.skip(1)) {
            Some(m) => Some(CommandView::ClusterConfiguration(m)),
            None => None,
        }
    } else if b[0] == TAG_USER {
        Some(CommandView::User(b.skip(1)))
    } else if b[0] == TAG_KERNEL {
        Some(CommandView::Kernel(b.skip(1)))
    } else {
        None
    }
}

/// Decoding an encoded membership gives the membership back.
pub proof fn lemma_decode_encode_ids(ids: Seq<NodeId>)
    requires
        strictly_ascending(ids),
        ids.len() <= u64::MAX,
    ensures
        decode_ids(encode_ids(ids)) == Some(ids),
{
    let b = encode_ids(ids);
    let n = ids.len() as u64;
    lemma_u64_round_trip(n);
    assert(b.len() == 8 + 8 * ids.len());
    assert(b.subrange(0, 8) =~= u64_bytes(n));
    let got = Seq::new(n as nat, |i: int| u64_at(b, 8 + 8 * i));
    assert forall|i: int| 0 <= i < ids.len() implies got[i] == ids[i] by {
        lemma_u64_round_trip(ids[i]);
        let chunk = b.subrange(8 + 8 * i, 8 + 8 * i + 8);
        assert forall|k: int| 0 <= k < 8 implies chunk[k] == u64_bytes(ids[i])[k] by {
            assert(chunk[k] == b[8 + 8 * i + k]);
            assert(b[8 + 8 * i + k] == ids_bytes(ids)[8 * i + k]);
            assert((8 * i + k) / 8 == i);
            assert((8 * i + k) % 8 == k);
        }
        assert(chunk =~= u64_bytes(ids[i]));
    }
    assert(got =~= ids);
}

/// Encoding a decoded membership gives the bytes back.
pub proof fn lemma_encode_decode_ids(b: Seq<u8>)
    requires
        decode_ids(b) is Some,
    ensures
        encode_ids(decode_ids(b)->Some_0) == b,
        strictly_ascending(decode_ids(b)->Some_0),
        decode_ids(b)->Some_0.len() <= u64::MAX,
{
    let n = u64_at(b, 0);
    let ids = decode_ids(b)->Some_0;
    assert(ids.len() == n);
    lemma_bytes_round_trip(b.subrange(0, 8));
    let e = encode_ids(ids);
    lemma_u64_round_trip(n);
    assert(e.len() == b.len());
    assert forall|k: int| 0 <= k < e.len() implies e[k] == b[k] by {
        if k < 8 {
            assert(e[k] == u64_bytes(n)[k]);
            assert(b.subrange(0, 8)[k] == b[k]);
        } else {
            let j = k - 8;
            let i = j / 8;
            let r = j % 8;
            assert(0 <= i < n);
            assert(e[k] == ids_bytes(ids)[j]);
            assert(ids[i] == u64_at(b, 8 + 8 * i));
            let chunk = b.subrange(8 + 8 * i, 8 + 8 * i + 8);
            lemma_bytes_round_trip(chunk);
            assert(u64_bytes(ids[i]) == chunk);
            assert(chunk[r] == b[8 + 8 * i + r]);
        }
    }
    assert(e =~= b);
}

/// Decoding an encoded command gives the command back.
pub proof fn lemma_decode_encode_command(c: CommandView)
    requires
        c.valid(),
    ensures
        decode_command(encode_command(c)) == Some(c),
{
    let b = encode_command(c);
    match c {
        CommandView::Noop => {},
        CommandView::Snapshot(m) => {
            assert(b.skip(1) =~= encode_ids(m));
            lemma_decode_encode_ids(m);
        },
        CommandView::ClusterConfiguration(m) => {
            assert(b.skip(1) =~= encode_ids(m));
            lemma_decode_encode_ids(m);
        },
        CommandView::User(bytes) => {
            assert(b.skip(1) =~= bytes);
        },
        CommandView::Kernel(bytes) => {
            assert(b.skip(1) =~= bytes);
        },
    }
}

/// Encoding a decoded command gives the bytes back, and what decodes is valid.
pub proof fn lemma_encode_decode_command(b: Seq<u8>)
    requires
        decode_command(b) is Some,
    ensures
        encode_command(decode_command(b)->Some_0) == b,
        decode_command(b)->Some_0.valid(),
{
    let c = decode_command(b)->Some_0;
    assert(b =~= seq![b[0]] + b.skip(1));
    match c {
        CommandView::Noop => {
            assert(b =~= seq![TAG_NOOP]);
        },
        CommandView::Snapshot(m) => {
            lemma_encode_decode_ids(b.skip(1));
        },
        CommandView::ClusterConfiguration(m) => {
            lemma_encode_decode_ids(b.skip(1));
        },
        CommandView::User(bytes) => {},
        CommandView::Kernel(bytes) => {},
    }
}

/// Appends the encoding of a membership.
fn put_ids(out: &mut Vec<u8>, m: &Membership)
    requires
        m.wf(),
    ensures
        final(out)@ == old(out)@ + encode_ids(m@),
        m@.len() <= u64::MAX,
{
    let n: usize = m.len();
    let ghost base = out@;
    put_u64(out, n as u64);
    let ghost head = out@;
    let mut i: usize = 0;
    assert(out@ =~= head + ids_bytes(m@.take(0)));
    while i < n
        invariant
            n == m@.len(),
            i <= n,
            out@ == head + ids_bytes(m@.take(i as int)),
        decreases n - i,
    {
        let ghost before = out@;
        put_u64(out, m.get(i));
        proof {
            lemma_u64_round_trip(m@[i as int]);
            let a = ids_bytes(m@.take(i as int)) + u64_bytes(m@[i as int]);
            let z = ids_bytes(m@.take(i + 1));
            assert(a.len() == z.len());
            assert forall|k: int| 0 <= k < z.len() implies a[k] == z[k] by {
                if k < 8 * i {
                    assert(k / 8 < i);
                    assert(m@.take(i as int)[k / 8] == m@.take(i + 1)[k / 8]);
                } else {
                    assert(k / 8 == i);
                    assert(k % 8 == k - 8 * i);
                    assert(m@.take(i + 1)[k / 8] == m@[i as int]);
                }
            }
            assert(a =~= z);
            assert(out@ =~= head + z);
        }
        i = i + 1;
    }
    assert(m@.take(n as int) =~= m@);
    assert(out@ =~= base + encode_ids(m@));
}

/// Reads a membership that fills `b` exactly.
fn take_ids(b: &[u8]) -> (r: Option<Membership>)
    ensures
        r.is_some() == decode_ids(b@).is_some(),
        r matches Some(m) ==> Some(m@) == decode_ids(b@) && m.wf(),
{
    let len: usize = b.len();
    if len < 8 {
        return None;
    }
    let n: u64 = get_u64(b, 0);
    let body: usize = len - 8;
    if body % 8 != 0 || (body / 8) as u64 != n {
        return None;
    }
    let count: usize = body / 8;
    let mut ids: Vec<NodeId> = Vec::new();
    let mut i: usize = 0;
    while i < count
        invariant
            len == b@.len(),
            len == 8 + 8 * count,
            i <= count,
            ids@.len() == i,
            forall|k: int| 0 <= k < i ==> ids@[k] == u64_at(b@, 8 + 8 * k),
        decreases count - i,
    {
        let x: u64 = get_u64(b, 8 + 8 * i);
        ids.push(x);
        i = i + 1;
    }
    assert(ids@ =~= Seq::new(n as nat, |i: int| u64_at(b@, 8 + 8 * i)));
    Membership::from_sorted(ids)
}

impl Command {
    /// Whether the membership that the command carries, if any, is well formed.
    pub open spec fn wf(&self) -> bool {
        match self {
            Command::Snapshot { membership } => membership.wf(),
            Command::ClusterConfiguration { membership } => membership.wf(),
            _ => true,
        }
    }

    /// The bytes that stand for this command.
    pub fn encode(&self) -> (out: Vec<u8>)
        requires
            self.wf(),
        ensures
            out@ == encode_command(self@),
            decode_command(out@) == Some(self@),
    {
        let mut out: Vec<u8> = Vec::new();
        match self {
            Command::Noop => {
                out.push(TAG_NOOP);
            },
            Command::Snapshot { membership } => {
                out.push(TAG_SNAPSHOT);
                put_ids(&mut out, membership);
            },
            Command::ClusterConfiguration { membership } => {
                out.push(TAG_CLUSTER_CONFIGURATION);
                put_ids(&mut out, membership);
            },
            Command::User { bytes } => {
                out.push(TAG_USER);
                put_tail(&mut out, bytes.as_slice(), 0);
                assert(bytes@.skip(0) =~= bytes@);
            },
            Command::Kernel { bytes } => {
                out.push(TAG_KERNEL);
                put_tail(&mut out, bytes.as_slice(), 0);
                assert(bytes@.skip(0) =~= bytes@);
            },
        }
        proof {
            assert(out@ =~= encode_command(self@));
            lemma_decode_encode_command(self@);
        }
        out
    }

    /// The command that `b` stands for. Empty input, an unknown tag and a
    /// malformed payload are refused with [`Error::BadLogState`].
    pub fn decode(b: &[u8]) -> (r: Result<Command, Error>)
        ensures
            match r {
                Ok(c) => decode_command(b@) == Some(c@) && c.wf() && encode_command(c@) == b@,
                Err(e) => e == Error::BadLogState && decode_command(b@) is None,
            },
    {
        let len: usize = b.len();
        if len == 0 {
            return Err(Error::BadLogState);
        }
        let tag: u8 = b[0];
        let rest = slice_subrange(b, 1, len);
        assert(rest@ =~= b@.skip(1));
        let r = if tag == TAG_NOOP {
            if len == 1 {
                Ok(Command::Noop)
            } else {
                Err(Error::BadLogState)
            }
        } else if tag == TAG_SNAPSHOT {
            match take_ids(rest) {
                Some(membership) => Ok(Command::Snapshot { membership }),
                None => Err(Error::BadLogState),
            }
        } else if tag == TAG_CLUSTER_CONFIGURATION {
            match take_ids(rest) {
                Some(membership) => Ok(Command::ClusterConfiguration { membership }),
                None => Err(Error::BadLogState),
            }
        } else if tag == TAG_USER {
            let mut bytes: Vec<u8> = Vec::new();
            put_tail(&mut bytes, b, 1);
            assert(bytes@ =~= b@.skip(1));
            Ok(Command::User { bytes })
        } else if tag == TAG_KERNEL {
            let mut bytes: Vec<u8> = Vec::new();
            put_tail(&mut bytes, b, 1);
            assert(bytes@ =~= b@.skip(1));
            Ok(Command::Kernel { bytes })
        } else {
            Err(Error::BadLogState)
        };
        proof {
            if r.is_ok() {
                lemma_encode_decode_command(b@);
            }
        }
        r
    }

    /// A copy of this command.
    pub fn duplicate(&self) -> (c: Command)
        ensures
            c@ == self@,
    {
        match self {
            Command::Noop => Command::Noop,
            Command::Snapshot { membership } => Command::Snapshot {
                membership: membership.duplicate(),
            },
            Command::ClusterConfiguration { membership } => Command::ClusterConfiguration {
                membership: membership.duplicate(),
            },
            Command::User { bytes } => Command::User { bytes: copy_bytes(bytes) },
            Command::Kernel { bytes } => Command::Kernel { bytes: copy_bytes(bytes) },
        }
    }
}

} // verus!
