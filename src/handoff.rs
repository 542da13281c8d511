use vstd::prelude::*;
use vstd::utf8::*;
use crate::registry::{ListenerHandle, ListenerRegistry, entries_view, unique_addresses, add_all};

verus! {

broadcast use {encode_utf8_valid_utf8, encode_utf8_decode_utf8, decode_utf8_encode_utf8};

/// Why a handoff frame could not be built or read.
#[derive(Clone, Copy, Debug, PartialEq, Eq, Structural)]
pub enum HandoffError {
    /// The payload is too short to hold the entry count.
    Truncated,
    /// The entry count differs from the number of handles that came with it.
    CountMismatch,
    /// The address list does not match its framing: a length runs past the
    /// end, or bytes follow the last address.
    Malformed,
    /// An address is not UTF-8 text.
    InvalidAddress,
    /// An address or the number of entries does not fit a 32-bit length.
    TooLarge,
}

/// What one handoff transfers: listeners in order, each address with its
/// handle.
pub struct HandoffMessage {
    pub entries: Vec<ListenerHandle>,
}

impl View for HandoffMessage {
    type V = Seq<(Seq<char>, i32)>;

    open spec fn view(&self) -> Seq<(Seq<char>, i32)> {
        entries_view(self.entries@)
    }
}

/// One handoff on the wire: the payload bytes, and the socket handles sent
/// beside them as ancillary data; handle `i` belongs to address `i`.
pub struct HandoffFrame {
    pub payload: Vec<u8>,
    pub handles: Vec<i32>,
}

/// A 32-bit little-endian integer read from four bytes.
pub open spec fn le32(b: Seq<u8>) -> u32 {
    (b[0] as u32) | ((b[1] as u32) << 8u32) | ((b[2] as u32) << 16u32) | ((b[3] as u32) << 24u32)
}

/// The four little-endian bytes of `n`.
pub open spec fn le32_bytes(n: u32) -> Seq<u8> {
    seq![(n & 0xff) as u8, ((n >> 8u32) & 0xff) as u8, ((n >> 16u32) & 0xff) as u8, ((n >> 24u32) & 0xff) as u8]
}

/// Each chunk preceded by its length.
pub open spec fn frame_chunks(cs: Seq<Seq<u8>>) -> Seq<u8>
    decreases cs.len(),
{
    if cs.len() == 0 {
        Seq::empty()
    } else {
        frame_chunks(cs.drop_last()) + le32_bytes(cs.last().len() as u32) + cs.last()
    }
}

pub open spec fn address_bytes(m: Seq<(Seq<char>, i32)>) -> Seq<Seq<u8>> {
    m.map_values(|e: (Seq<char>, i32)| encode_utf8(e.0))
}

pub open spec fn handles_of(m: Seq<(Seq<char>, i32)>) -> Seq<i32> {
    m.map_values(|e: (Seq<char>, i32)| e.1)
}

/// Every length in the frame fits 32 bits.
pub open spec fn encodable(m: Seq<(Seq<char>, i32)>) -> bool {
    &&& m.len() <= u32::MAX
    &&& forall|i: int| 0 <= i < m.len() ==> encode_utf8(#[trigger] m[i].0).len() <= u32::MAX
}

/// The payload of a message: the entry count, then each address as a
/// length-prefixed UTF-8 string, in order.
pub open spec fn payload_spec(m: Seq<(Seq<char>, i32)>) -> Seq<u8> {
    le32_bytes(m.len() as u32) + frame_chunks(address_bytes(m))
}

/// Reads `n` length-prefixed chunks from `pos`, which must end exactly at
/// the end of `b`.
pub open spec fn parse_from(b: Seq<u8>, pos: int, n: nat) -> Option<Seq<Seq<u8>>>
    decreases n,
{
    if n == 0 {
        if pos == b.len() { Some(Seq::empty()) } else { None }
    } else if pos < 0 || pos + 4 > b.len() {
        None
    } else {
        let l = le32(b.subrange(pos, pos + 4)) as int;
        if pos + 4 + l > b.len() {
            None
        } else {
            match parse_from(b, pos + 4 + l, (n - 1) as nat) {
                Some(rest) => Some(seq![b.subrange(pos + 4, pos + 4 + l)] + rest),
                None => None,
            }
        }
    }
}

pub open spec fn prepend(done: Seq<Seq<u8>>, o: Option<Seq<Seq<u8>>>) -> Option<Seq<Seq<u8>>> {
    match o {
        Some(rest) => Some(done + rest),
        None => None,
    }
}

/// What a frame decodes to: the count must equal the number of handles,
/// the framing must hold exactly that many addresses, and each must be
/// UTF-8.
pub open spec fn decode_spec(p: Seq<u8>, h: Seq<i32>) -> Result<Seq<(Seq<char>, i32)>, HandoffError> {
    if p.len() < 4 {
        Err(HandoffError::Truncated)
    } else if le32(p.subrange(0, 4)) as int != h.len() {
        Err(HandoffError::CountMismatch)
    } else {
        match parse_from(p, 4, h.len()) {
            None => Err(HandoffError::Malformed),
            Some(cs) => if forall|i: int| 0 <= i < cs.len() ==> valid_utf8(#[trigger] cs[i]) {
                Ok(Seq::new(h.len(), |i: int| (decode_utf8(cs[i]), h[i])))
            } else {
                Err(HandoffError::InvalidAddress)
            },
        }
    }
}

/// Relies on String::from_utf8: it accepts exactly the well-formed UTF-8
/// byte strings, and then holds the characters they encode.
#[verifier::external_body]
pub(crate) fn utf8_to_string(b: Vec<u8>) -> (r: Option<String>)
    ensures
        match r {
            Some(s) => valid_utf8(b@) && s@ == decode_utf8(b@),
            None => !valid_utf8(b@),
        },
{
    String::from_utf8(b).ok()
}

fn push_le32(out: &mut Vec<u8>, n: u32)
    ensures
        final(out)@ == old(out)@ + le32_bytes(n),
{
    out.push((n & 0xff) as u8);
    out.push(((n >> 8u32) & 0xff) as u8);
    out.push(((n >> 16u32) & 0xff) as u8);
    out.push(((n >> 24u32) & 0xff) as u8);
    assert(out@ =~= old(out)@ + le32_bytes(n));
}

fn read_le32(b: &Vec<u8>, pos: usize) -> (r: u32)
    requires
        pos + 4 <= b@.len(),
    ensures
        r == le32(b@.subrange(pos as int, pos + 4)),
{
    let _n = b.len();
    let ghost s = b@.subrange(pos as int, pos + 4);
    assert(s[0] == b@[pos as int] && s[1] == b@[pos + 1] && s[2] == b@[pos + 2] && s[3] == b@[pos + 3]);
    (b[pos] as u32) | ((b[pos + 1] as u32) << 8u32) | ((b[pos + 2] as u32) << 16u32) | ((b[pos + 3] as u32) << 24u32)
}

pub(crate) fn copy_range(b: &Vec<u8>, start: usize, len: usize) -> (r: Vec<u8>)
    requires
        start + len <= b@.len(),
    ensures
        r@ == b@.subrange(start as int, start + len),
{
    let _n = b.len();
    let mut out: Vec<u8> = Vec::new();
    let mut i: usize = 0;
    while i < len
        invariant
            i <= len,
            _n == b@.len(),
            start + len <= b@.len(),
            out@ =~= b@.subrange(start as int, start + i),
        decreases len - i,
    {
        out.push(b[start + i]);
        i = i + 1;
    }
    out
}

impl HandoffMessage {
    /// The frame that carries this message: the payload holds the entry
    /// count and the length-prefixed addresses, the handles go beside it in
    /// the same order. Fails only where a length does not fit 32 bits.
    pub fn encode(&self) -> (r: Result<HandoffFrame, HandoffError>)
        ensures
            match r {
                Ok(f) => encodable(self@) && f.payload@ == payload_spec(self@) && f.handles@
                    == handles_of(self@),
                Err(e) => !encodable(self@) && e == HandoffError::TooLarge,
            },
    {
        let n = self.entries.len();
        if n as u64 > 0xffff_ffffu64 {
            return Err(HandoffError::TooLarge);
        }
        let ghost m = self@;
        let mut payload: Vec<u8> = Vec::new();
        push_le32(&mut payload, n as u32);
        let mut handles: Vec<i32> = Vec::new();
        let mut i: usize = 0;
        while i < n
            invariant
                n == self.entries@.len(),
                m == self@,
                n <= u32::MAX,
                i <= n,
                payload@ == le32_bytes(n as u32) + frame_chunks(address_bytes(m.subrange(0, i as int))),
                handles@ == handles_of(m.subrange(0, i as int)),
                forall|k: int| 0 <= k < i ==> encode_utf8(#[trigger] m[k].0).len() <= u32::MAX,
            decreases n - i,
        {
            let bytes = self.entries[i].address.as_str().as_bytes();
            let len = bytes.len();
            if len as u64 > 0xffff_ffffu64 {
                assert(encode_utf8(m[i as int].0).len() > u32::MAX);
                return Err(HandoffError::TooLarge);
            }
            let ghost before = payload@;
            push_le32(&mut payload, len as u32);
            let mut j: usize = 0;
            while j < len
                invariant
                    j <= len,
                    len == bytes@.len(),
                    payload@ =~= before + le32_bytes(len as u32) + bytes@.subrange(0, j as int),
                decreases len - j,
            {
                payload.push(bytes[j]);
                j = j + 1;
            }
            handles.push(self.entries[i].handle);
            proof {
                let c = m.subrange(0, i + 1);
                assert(address_bytes(c).drop_last() =~= address_bytes(m.subrange(0, i as int)));
                assert(address_bytes(c).last() == encode_utf8(m[i as int].0));
                assert(bytes@.subrange(0, len as int) =~= bytes@);
                assert(payload@ =~= le32_bytes(n as u32) + frame_chunks(address_bytes(c)));
                assert(handles@ =~= handles_of(c));
            }
            i = i + 1;
        }
        assert(m.subrange(0, n as int) =~= m);
        Ok(HandoffFrame { payload, handles })
    }

    /// Reads a frame back into a message. The count in the payload must
    /// equal the number of handles: a mismatch is refused, never cut short
    /// or filled up.
    pub fn decode(frame: &HandoffFrame) -> (r: Result<HandoffMessage, HandoffError>)
        ensures
            match r {
                Ok(m) => decode_spec(frame.payload@, frame.handles@) == Ok::<_, HandoffError>(m@),
                Err(e) => decode_spec(frame.payload@, frame.handles@) == Err::<
                    Seq<(Seq<char>, i32)>,
                    HandoffError,
                >(e),
            },
    {
        let b = &frame.payload;
        let h = &frame.handles;
        let blen = b.len();
        let n = h.len();
        if blen < 4 {
            return Err(HandoffError::Truncated);
        }
        let count = read_le32(b, 0);
        if count as u64 != n as u64 {
            return Err(HandoffError::CountMismatch);
        }
        let mut starts: Vec<usize> = Vec::new();
        let mut lens: Vec<usize> = Vec::new();
        let ghost mut done: Seq<Seq<u8>> = Seq::empty();
        let mut pos: usize = 4;
        let mut k: usize = 0;
        while k < n
            invariant
                blen == b@.len(),
                n == h@.len(),
                b@ == frame.payload@,
                h@ == frame.handles@,
                4 <= pos <= blen,
                k <= n,
                done.len() == k,
                starts@.len() == k,
                lens@.len() == k,
                forall|j: int| 0 <= j < k ==> #[trigger] starts@[j] + lens@[j] <= blen,
                forall|j: int| 0 <= j < k ==> #[trigger] done[j] == b@.subrange(starts@[j] as int, starts@[j] + lens@[j]),
                parse_from(b@, 4, n as nat) == prepend(done, parse_from(b@, pos as int, (n - k) as nat)),
                count == n,
                le32(b@.subrange(0, 4)) == count,
            decreases n - k,
        {
            if blen - pos < 4 {
                assert(parse_from(b@, pos as int, (n - k) as nat) is None);
                assert(parse_from(b@, 4, n as nat) is None);
                assert(decode_spec(b@, h@) == Err::<Seq<(Seq<char>, i32)>, HandoffError>(HandoffError::Malformed));
                return Err(HandoffError::Malformed);
            }
            let l = read_le32(b, pos);
            if ((blen - pos - 4) as u64) < l as u64 {
                assert(parse_from(b@, pos as int, (n - k) as nat) is None);
                assert(parse_from(b@, 4, n as nat) is None);
                assert(decode_spec(b@, h@) == Err::<Seq<(Seq<char>, i32)>, HandoffError>(HandoffError::Malformed));
                return Err(HandoffError::Malformed);
            }
            let start = pos + 4;
            let len = l as usize;
            proof {
                let chunk = b@.subrange(start as int, start + len);
                let rest = parse_from(b@, start + len, (n - k - 1) as nat);
                assert(parse_from(b@, pos as int, (n - k) as nat) == prepend(seq![chunk], rest));
                match rest {
                    Some(r) => {
                        assert(done + (seq![chunk] + r) =~= done.push(chunk) + r);
                    },
                    None => {},
                }
            }
            let ghost old_starts = starts@;
            let ghost old_lens = lens@;
            starts.push(start);
            lens.push(len);
            proof {
                let chunk = b@.subrange(start as int, start + len);
                let old_done = done;
                done = done.push(chunk);
                assert forall|j: int| 0 <= j < k + 1 implies #[trigger] starts@[j] + lens@[j] <= blen && done[j]
                    == b@.subrange(starts@[j] as int, starts@[j] + lens@[j]) by {
                    if j < k {
                        assert(starts@[j] == old_starts[j] && lens@[j] == old_lens[j]);
                        assert(done[j] == old_done[j]);
                    }
                }
            }
            pos = start + len;
            k = k + 1;
        }
        if pos != blen {
            assert(parse_from(b@, pos as int, 0) is None);
            return Err(HandoffError::Malformed);
        }
        assert(done + Seq::<Seq<u8>>::empty() =~= done);
        assert(parse_from(b@, 4, n as nat) == Some(done));
        let mut entries: Vec<ListenerHandle> = Vec::new();
        let mut i: usize = 0;
        while i < n
            invariant
                blen == b@.len(),
                n == h@.len(),
                b@ == frame.payload@,
                h@ == frame.handles@,
                n == starts@.len(),
                n == lens@.len(),
                done.len() == n,
                i <= n,
                forall|j: int| 0 <= j < n ==> #[trigger] starts@[j] + lens@[j] <= blen,
                forall|j: int| 0 <= j < n ==> #[trigger] done[j] == b@.subrange(starts@[j] as int, starts@[j] + lens@[j]),
                forall|j: int| 0 <= j < i ==> valid_utf8(#[trigger] done[j]),
                parse_from(b@, 4, n as nat) == Some(done),
                count == n,
                blen >= 4,
                le32(b@.subrange(0, 4)) == count,
                entries_view(entries@) =~= Seq::new(i as nat, |j: int| (decode_utf8(done[j]), h@[j])),
            decreases n - i,
        {
            let chunk = copy_range(b, starts[i], lens[i]);
            assert(chunk@ == done[i as int]);
            match utf8_to_string(chunk) {
                None => {
                    assert(!valid_utf8(done[i as int]));
                    assert(!(forall|j: int| 0 <= j < done.len() ==> valid_utf8(#[trigger] done[j])));
                    assert(decode_spec(b@, h@) == Err::<Seq<(Seq<char>, i32)>, HandoffError>(HandoffError::InvalidAddress));
                    return Err(HandoffError::InvalidAddress);
                },
                Some(address) => {
                    let e = ListenerHandle { address, handle: h[i] };
                    let ghost prev = entries@;
                    entries.push(e);
                    assert(entries_view(entries@) =~= entries_view(prev).push(e@));
                },
            }
            i = i + 1;
        }
        Ok(HandoffMessage { entries })
    }
}

impl ListenerRegistry {
    /// A snapshot of every entry, for transfer; address `i` goes with
    /// handle `i`.
    pub fn serialize(&self) -> (r: HandoffMessage)
        ensures
            r@ == self@,
            unique_addresses(r@),
    {
        HandoffMessage { entries: self.entries() }
    }

    /// Adds every listener that a received frame carries, in order. A frame
    /// that does not decode leaves the registry as it was.
    pub fn populate_from(&mut self, frame: &HandoffFrame) -> (r: Result<(), HandoffError>)
        ensures
            match decode_spec(frame.payload@, frame.handles@) {
                Ok(m) => r is Ok && final(self)@ == add_all(old(self)@, m),
                Err(e) => r == Err::<(), HandoffError>(e) && final(self)@ == old(self)@,
            },
    {
        let msg = match HandoffMessage::decode(frame) {
            Ok(m) => m,
            Err(e) => {
                return Err(e);
            },
        };
        let ghost start = self@;
        let ghost mv = msg@;
        let n = msg.entries.len();
        let mut i: usize = 0;
        while i < n
            invariant
                n == msg.entries@.len(),
                mv == msg@,
                i <= n,
                self@ == add_all(start, mv.subrange(0, i as int)),
            decreases n - i,
        {
            let address = msg.entries[i].address.clone();
            let handle = msg.entries[i].handle;
            self.add(address, handle);
            proof {
                assert(mv.subrange(0, i + 1).drop_last() =~= mv.subrange(0, i as int));
                assert(mv.subrange(0, i + 1).last() == mv[i as int]);
            }
            i = i + 1;
        }
        assert(mv.subrange(0, n as int) =~= mv);
        Ok(())
    }
}

proof fn lemma_le32_bytes(x: u32)
    ensures
        le32(le32_bytes(x)) == x,
{
    let b = le32_bytes(x);
    assert(((x & 0xff) as u8 as u32) | ((((x >> 8u32) & 0xff) as u8 as u32) << 8u32) | ((((x >> 16u32)
        & 0xff) as u8 as u32) << 16u32) | ((((x >> 24u32) & 0xff) as u8 as u32) << 24u32) == x)
        by (bit_vector);
}

proof fn lemma_frame_front(cs: Seq<Seq<u8>>)
    requires
        cs.len() > 0,
    ensures
        frame_chunks(cs) == le32_bytes(cs[0].len() as u32) + cs[0] + frame_chunks(cs.drop_first()),
    decreases cs.len(),
{
    if cs.len() == 1 {
        assert(cs.drop_last() =~= Seq::<Seq<u8>>::empty());
        assert(cs.drop_first() =~= Seq::<Seq<u8>>::empty());
        assert(frame_chunks(cs) =~= le32_bytes(cs[0].len() as u32) + cs[0] + frame_chunks(cs.drop_first()));
    } else {
        let d = cs.drop_last();
        lemma_frame_front(d);
        assert(d.drop_first() =~= cs.drop_first().drop_last());
        assert(cs.drop_first().last() == cs.last());
        assert(frame_chunks(cs) =~= le32_bytes(cs[0].len() as u32) + cs[0] + frame_chunks(cs.drop_first()));
    }
}

proof fn lemma_parse_frame(b: Seq<u8>, pos: int, cs: Seq<Seq<u8>>)
    requires
        0 <= pos <= b.len(),
        b.subrange(pos, b.len() as int) == frame_chunks(cs),
        forall|i: int| 0 <= i < cs.len() ==> (#[trigger] cs[i]).len() <= u32::MAX,
    ensures
        parse_from(b, pos, cs.len()) == Some(cs),
    decreases cs.len(),
{
    if cs.len() == 0 {
        assert(b.subrange(pos, b.len() as int).len() == 0);
    } else {
        lemma_frame_front(cs);
        let c = cs[0];
        let l = c.len() as u32;
        let rest = b.subrange(pos, b.len() as int);
        let ft = frame_chunks(cs.drop_first());
        assert(rest == le32_bytes(l) + c + ft);
        assert(rest.len() == 4 + c.len() + ft.len());
        assert(rest.subrange(0, 4) =~= le32_bytes(l));
        assert(rest.subrange(4, 4 + c.len() as int) =~= c);
        assert(rest.subrange(4 + c.len() as int, rest.len() as int) =~= ft);
        assert(b.subrange(pos, pos + 4) =~= rest.subrange(0, 4));
        lemma_le32_bytes(l);
        assert(b.subrange(pos + 4, pos + 4 + c.len()) =~= rest.subrange(4, 4 + c.len() as int));
        let tail = cs.drop_first();
        assert forall|i: int| 0 <= i < tail.len() implies (#[trigger] tail[i]).len() <= u32::MAX by {
            assert(tail[i] == cs[i + 1]);
        }
        assert(b.subrange(pos + 4 + c.len(), b.len() as int) =~= rest.subrange(4 + c.len() as int, rest.len() as int));
        lemma_parse_frame(b, pos + 4 + c.len(), tail);
        assert(seq![c] + tail =~= cs);
    }
}

/// A message read back from its own frame is the message itself: same
/// addresses, same handles, same order.
pub proof fn lemma_handoff_round_trip(m: Seq<(Seq<char>, i32)>)
    requires
        encodable(m),
    ensures
        decode_spec(payload_spec(m), handles_of(m)) == Ok::<_, HandoffError>(m),
{
    let p = payload_spec(m);
    let cs = address_bytes(m);
    lemma_le32_bytes(m.len() as u32);
    assert(p.subrange(0, 4) =~= le32_bytes(m.len() as u32));
    assert forall|i: int| 0 <= i < cs.len() implies (#[trigger] cs[i]).len() <= u32::MAX by {
        assert(cs[i] == encode_utf8(m[i].0));
    }
    assert(p.subrange(4, p.len() as int) =~= frame_chunks(cs));
    lemma_parse_frame(p, 4, cs);
    assert forall|i: int| 0 <= i < cs.len() implies valid_utf8(#[trigger] cs[i]) by {
        assert(cs[i] == encode_utf8(m[i].0));
    }
    let h = handles_of(m);
    assert(Seq::new(h.len(), |i: int| (decode_utf8(cs[i]), h[i])) =~= m);
}

/// A frame whose entry count differs from the number of handles beside it
/// is refused as a protocol error.
pub proof fn lemma_count_mismatch_rejected(p: Seq<u8>, h: Seq<i32>)
    requires
        p.len() >= 4,
        le32(p.subrange(0, 4)) as int != h.len(),
    ensures
        decode_spec(p, h) == Err::<Seq<(Seq<char>, i32)>, HandoffError>(HandoffError::CountMismatch),
{
}

proof fn lemma_le32_of_bytes(b: Seq<u8>)
    requires
        b.len() == 4,
    ensures
        le32_bytes(le32(b)) == b,
{
    let (b0, b1, b2, b3) = (b[0], b[1], b[2], b[3]);
    let x = le32(b);
    assert(((x & 0xff) as u8) == b0 && (((x >> 8u32) & 0xff) as u8) == b1 && (((x >> 16u32) & 0xff) as u8) == b2
        && (((x >> 24u32) & 0xff) as u8) == b3) by (bit_vector)
        requires
            x == (b0 as u32) | ((b1 as u32) << 8u32) | ((b2 as u32) << 16u32) | ((b3 as u32) << 24u32),
    ;
    assert(le32_bytes(x) =~= b);
}

proof fn lemma_parsed_is_framed(b: Seq<u8>, pos: int, n: nat)
    requires
        parse_from(b, pos, n) is Some,
    ensures
        0 <= pos <= b.len(),
        parse_from(b, pos, n)->Some_0.len() == n,
        forall|i: int| 0 <= i < n ==> (#[trigger] parse_from(b, pos, n)->Some_0[i]).len() <= u32::MAX,
        b.subrange(pos, b.len() as int) == frame_chunks(parse_from(b, pos, n)->Some_0),
    decreases n,
{
    let cs = parse_from(b, pos, n)->Some_0;
    if n == 0 {
        assert(b.subrange(pos, b.len() as int) =~= frame_chunks(cs));
    } else {
        let l = le32(b.subrange(pos, pos + 4)) as int;
        let next = pos + 4 + l;
        lemma_parsed_is_framed(b, next, (n - 1) as nat);
        let rest = parse_from(b, next, (n - 1) as nat)->Some_0;
        let c = b.subrange(pos + 4, next);
        assert(cs == seq![c] + rest);
        assert(cs[0] == c);
        assert(cs.drop_first() =~= rest);
        assert forall|i: int| 0 <= i < n implies (#[trigger] cs[i]).len() <= u32::MAX by {
            if i > 0 {
                assert(cs[i] == rest[i - 1]);
            }
        }
        lemma_frame_front(cs);
        lemma_le32_of_bytes(b.subrange(pos, pos + 4));
        assert(b.subrange(pos, b.len() as int) =~= b.subrange(pos, pos + 4) + c + b.subrange(next, b.len() as int));
    }
}

/// A frame is accepted only when it is exactly the frame of what it
/// yields: one address for each handle, nothing cut off and nothing added.
pub proof fn lemma_accepted_frame_is_exact(p: Seq<u8>, h: Seq<i32>)
    requires
        decode_spec(p, h) is Ok,
    ensures
        encodable(decode_spec(p, h)->Ok_0),
        handles_of(decode_spec(p, h)->Ok_0) == h,
        payload_spec(decode_spec(p, h)->Ok_0) == p,
{
    let cs = parse_from(p, 4, h.len())->Some_0;
    lemma_parsed_is_framed(p, 4, h.len());
    let m = decode_spec(p, h)->Ok_0;
    assert(address_bytes(m) =~= cs) by {
        assert forall|i: int| 0 <= i < cs.len() implies address_bytes(m)[i] == cs[i] by {
            assert(valid_utf8(cs[i]));
        }
    }
    assert(handles_of(m) =~= h);
    lemma_le32_of_bytes(p.subrange(0, 4));
    assert(p =~= p.subrange(0, 4) + p.subrange(4, p.len() as int));
}

} // verus!
