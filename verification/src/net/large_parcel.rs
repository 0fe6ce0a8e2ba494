use vstd::prelude::*;
use std::collections::VecDeque;
use std::hash::{Hash, Hasher};

verus! {

/// The most bytes that one parcel carries.
pub const LARGE_PARCEL_DATA_MAX_BYTE_COUNT: u64 = 32;

/// What snappy's raw encoder makes of `input`.
pub uninterp spec fn snappy_compressed(input: Seq<u8>) -> Seq<u8>;

/// Whether snappy's raw encoder accepts an input of `len` bytes: its worst-case output size,
/// `32 + len + len / 6`, must not exceed `2^32 - 1`.
pub open spec fn snappy_accepts(len: nat) -> bool {
    32 + len + len / 6 <= u32::MAX
}

/// Calls `snap::raw::Encoder::compress_vec` on a new encoder. Its source fails only when
/// `32 + len + len / 6` exceeds `2^32 - 1` (the buffer it allocates is always large enough), and
/// otherwise writes a non-empty block no longer than that bound; the block is named
/// `snappy_compressed` of the input.
#[verifier::external_body]
fn compress(input: &[u8]) -> (r: Vec<u8>)
    requires
        snappy_accepts(input@.len()),
    ensures
        r@ == snappy_compressed(input@),
        1 <= r@.len() <= 32 + input@.len() + input@.len() / 6,
{
    snap::raw::Encoder::new().compress_vec(input).unwrap()
}

/// Hashes the compressed message, then the channel, then the target client, with rapidhash's
/// quality hasher under its fixed default seed, and gives the hash. Nothing is stated of the
/// result: the message's length prefix is hashed at the width of `usize`, so the value differs
/// between machines.
#[verifier::external_body]
fn parcel_group_key(message: &Vec<u8>, channel_id: u8, target_client_id: Option<u64>) -> u64 {
    let mut hasher = rapidhash::quality::RapidHasher::default();
    message.hash(&mut hasher);
    channel_id.hash(&mut hasher);
    target_client_id.hash(&mut hasher);
    hasher.finish()
}

/// Whom a large-parcel message goes to.
#[derive(Clone, Copy, Debug, PartialEq, Eq, Structural)]
pub enum ParcelRoute {
    /// One client.
    Client(u64),
    /// Every client but one.
    AllExcept(u64),
    /// Every client.
    All,
}

/// Whom a parcel with this target goes to: to every client when there is no target, else to
/// the target, or to every client but the target when it is excluded.
pub fn parcel_route(p_target_client_id: Option<u64>, p_exclude_client: bool) -> (r: ParcelRoute)
    ensures
        r == match p_target_client_id {
            None => ParcelRoute::All,
            Some(id) => if p_exclude_client {
                ParcelRoute::AllExcept(id)
            } else {
                ParcelRoute::Client(id)
            },
        },
{
    match p_target_client_id {
        Some(client_id) => if p_exclude_client {
            ParcelRoute::AllExcept(client_id)
        } else {
            ParcelRoute::Client(client_id)
        },
        None => ParcelRoute::All,
    }
}

/// The number of parcels that carry `len` bytes: `len / 32` rounded up.
pub open spec fn parcel_count(len: nat) -> nat {
    if len % 32 == 0 {
        len / 32
    } else {
        len / 32 + 1
    }
}

/// The bytes that parcel `i` of message `m` carries.
pub open spec fn parcel_piece(m: Seq<u8>, i: int) -> Seq<u8> {
    m.subrange(i * 32, if (i + 1) * 32 <= m.len() {
        (i + 1) * 32
    } else {
        m.len() as int
    })
}

/// All parcels of message `m`, in order.
pub open spec fn parcel_pieces(m: Seq<u8>) -> Seq<Seq<u8>> {
    Seq::new(parcel_count(m.len()), |i: int| parcel_piece(m, i))
}

/// The pieces joined in order.
pub open spec fn concat(s: Seq<Seq<u8>>) -> Seq<u8>
    decreases s.len(),
{
    if s.len() == 0 {
        Seq::empty()
    } else {
        concat(s.drop_last()) + s.last()
    }
}

proof fn lemma_concat_prefix(m: Seq<u8>, k: int)
    requires
        0 <= k <= parcel_count(m.len()),
    ensures
        concat(parcel_pieces(m).take(k)) == m.subrange(
            0,
            if k * 32 <= m.len() {
                k * 32
            } else {
                m.len() as int
            },
        ),
    decreases k,
{
    if k == 0 {
        assert(parcel_pieces(m).take(0) =~= Seq::<Seq<u8>>::empty());
        assert(m.subrange(0, 0) =~= Seq::<u8>::empty());
    } else {
        lemma_concat_prefix(m, k - 1);
        assert(parcel_pieces(m).take(k).drop_last() =~= parcel_pieces(m).take(k - 1));
        assert((k - 1) * 32 <= m.len());
        let end = if k * 32 <= m.len() {
            k * 32
        } else {
            m.len() as int
        };
        assert(m.subrange(0, (k - 1) * 32) + m.subrange((k - 1) * 32, end) =~= m.subrange(0, end));
    }
}

/// Joining the parcels of a message in order gives the message back.
pub proof fn lemma_parcels_concat(m: Seq<u8>)
    ensures
        concat(parcel_pieces(m)) == m,
        forall|i: int|
            0 <= i < parcel_pieces(m).len() ==> 1 <= #[trigger] parcel_pieces(m)[i].len() <= 32,
{
    lemma_concat_prefix(m, parcel_count(m.len()) as int);
    assert(parcel_pieces(m).take(parcel_count(m.len()) as int) =~= parcel_pieces(m));
    assert(m.subrange(0, m.len() as int) =~= m);
}

/// The first message of a large parcel: its group key and how many parcels follow.
#[derive(Clone, Copy, Debug, PartialEq, Eq, Structural)]
pub struct LargeParcelMetadataMessage {
    pub key: u64,
    pub count: u64,
}

/// One parcel of a large parcel: its group key, its place in the group and its bytes.
#[derive(Debug)]
pub struct LargeParcelBodyMessage {
    pub key: u64,
    pub index: u64,
    pub data: Vec<u8>,
}

/// A message on a channel that carries large parcels.
#[derive(Debug)]
pub enum LargeParcelMessage {
    Metadata(LargeParcelMetadataMessage),
    Body(LargeParcelBodyMessage),
}

/// A large-parcel message as plain values.
pub enum LargeParcelEvent {
    Metadata { key: u64, count: u64 },
    Body { key: u64, index: u64, data: Seq<u8> },
}

impl View for LargeParcelMessage {
    type V = LargeParcelEvent;

    open spec fn view(&self) -> LargeParcelEvent {
        match self {
            LargeParcelMessage::Metadata(m) => LargeParcelEvent::Metadata {
                key: m.key,
                count: m.count,
            },
            LargeParcelMessage::Body(b) => LargeParcelEvent::Body {
                key: b.key,
                index: b.index,
                data: b.data@,
            },
        }
    }
}

/// One parcel waiting to be sent: to `target_client_id`, to every client but it when
/// `exclude_client`, or to every client when there is no target.
#[derive(Debug)]
pub struct LargeParcelSendInstruction {
    pub key: u64,
    pub index: u64,
    pub target_client_id: Option<u64>,
    pub exclude_client: bool,
    pub channel_id: u8,
    pub data: Vec<u8>,
}

/// A send instruction as plain values.
pub struct SendInstructionView {
    pub key: u64,
    pub index: u64,
    pub target_client_id: Option<u64>,
    pub exclude_client: bool,
    pub channel_id: u8,
    pub data: Seq<u8>,
}

impl View for LargeParcelSendInstruction {
    type V = SendInstructionView;

    open spec fn view(&self) -> SendInstructionView {
        SendInstructionView {
            key: self.key,
            index: self.index,
            target_client_id: self.target_client_id,
            exclude_client: self.exclude_client,
            channel_id: self.channel_id,
            data: self.data@,
        }
    }
}

/// The instructions that a large parcel adds at the front of the queue: parcel `n - 1` first,
/// parcel `0` last, so that popping from the back sends them in order.
pub open spec fn planned_instructions(
    key: u64,
    target_client_id: Option<u64>,
    exclude_client: bool,
    channel_id: u8,
    c: Seq<u8>,
) -> Seq<SendInstructionView> {
    let n = parcel_count(c.len());
    Seq::new(
        n,
        |j: int|
            SendInstructionView {
                key,
                index: (n - 1 - j) as u64,
                target_client_id,
                exclude_client,
                channel_id,
                data: parcel_piece(c, n - 1 - j),
            },
    )
}

/// Every parcel that a large parcel queues carries the key, the target, the exclusion and the
/// channel that it was set up with, so that all its parcels take the same route.
pub proof fn lemma_planned_keep_route(
    key: u64,
    target_client_id: Option<u64>,
    exclude_client: bool,
    channel_id: u8,
    c: Seq<u8>,
)
    ensures
        forall|j: int|
            0 <= j < planned_instructions(key, target_client_id, exclude_client, channel_id, c).len() ==> {
                let inst = #[trigger] planned_instructions(
                    key,
                    target_client_id,
                    exclude_client,
                    channel_id,
                    c,
                )[j];
                &&& inst.key == key
                &&& inst.target_client_id == target_client_id
                &&& inst.exclude_client == exclude_client
                &&& inst.channel_id == channel_id
            },
{
}

/// Taking the parcels of one large parcel from the back of the queue, as `take_parcels` does,
/// gives parcel `i` at turn `i`, with the `i`-th piece of the compressed message and its key.
pub proof fn lemma_planned_in_order(
    key: u64,
    target_client_id: Option<u64>,
    exclude_client: bool,
    channel_id: u8,
    c: Seq<u8>,
    i: int,
)
    requires
        0 <= i < parcel_count(c.len()),
        parcel_count(c.len()) <= u64::MAX,
    ensures
        ({
            let planned = planned_instructions(key, target_client_id, exclude_client, channel_id, c);
            let n = planned.len();
            &&& planned[n - 1 - i].key == key
            &&& planned[n - 1 - i].index == i
            &&& planned[n - 1 - i].data == parcel_pieces(c)[i]
            &&& planned[n - 1 - i].channel_id == channel_id
            &&& planned[n - 1 - i].target_client_id == target_client_id
        }),
{
}

fn copy_range(m: &Vec<u8>, start: usize, end: usize) -> (r: Vec<u8>)
    requires
        start <= end <= m@.len(),
    ensures
        r@ == m@.subrange(start as int, end as int),
{
    let mut r: Vec<u8> = Vec::new();
    let mut i: usize = start;
    while i < end
        invariant
            start <= i <= end <= m@.len(),
            r@ == m@.subrange(start as int, i as int),
        decreases end - i,
    {
        r.push(m[i]);
        assert(r@ =~= m@.subrange(start as int, i + 1));
        i = i + 1;
    }
    r
}

/// The plain values of a list of instructions.
pub open spec fn instruction_views(s: Seq<LargeParcelSendInstruction>) -> Seq<SendInstructionView> {
    Seq::new(s.len(), |i: int| s[i]@)
}

proof fn lemma_views_push_front(x: LargeParcelSendInstruction, s: Seq<LargeParcelSendInstruction>)
    ensures
        instruction_views(seq![x] + s) == seq![x@] + instruction_views(s),
{
    assert(instruction_views(seq![x] + s) =~= seq![x@] + instruction_views(s));
}

proof fn lemma_views_drop_last(s: Seq<LargeParcelSendInstruction>)
    requires
        s.len() > 0,
    ensures
        instruction_views(s.subrange(0, s.len() - 1)) == instruction_views(s).take(s.len() - 1),
        instruction_views(s)[s.len() - 1] == s[s.len() - 1]@,
{
    assert(instruction_views(s.subrange(0, s.len() - 1)) =~= instruction_views(s).take(s.len() - 1));
}

/// The parcels that a server still has to send, oldest at the back.
pub struct LargeParcelQueue {
    queue: VecDeque<LargeParcelSendInstruction>,
}

impl View for LargeParcelQueue {
    type V = Seq<SendInstructionView>;

    closed spec fn view(&self) -> Seq<SendInstructionView> {
        instruction_views(self.queue@)
    }
}

impl LargeParcelQueue {
    /// An empty queue.
    pub fn new() -> (r: LargeParcelQueue)
        ensures
            r@ == Seq::<SendInstructionView>::empty(),
    {
        let r = LargeParcelQueue { queue: VecDeque::new() };
        assert(r@ =~= Seq::<SendInstructionView>::empty());
        r
    }

    /// The number of parcels waiting.
    pub fn len(&self) -> (r: usize)
        ensures
            r == self@.len(),
    {
        self.queue.len()
    }

    /// Compresses `p_message`, cuts the result into parcels of at most 32 bytes, queues them in
    /// order, and gives the metadata message that announces them.
    pub fn setup_large_parcel(
        &mut self,
        p_target_client_id: Option<u64>,
        p_channel_id: u8,
        p_message: Vec<u8>,
        p_exclude_client: bool,
    ) -> (r: LargeParcelMetadataMessage)
        requires
            snappy_accepts(p_message@.len()),
        ensures
            r.count == parcel_count(snappy_compressed(p_message@).len()),
            1 <= snappy_compressed(p_message@).len() <= 32 + p_message@.len() + p_message@.len() / 6,
            final(self)@ == planned_instructions(
                r.key,
                p_target_client_id,
                p_exclude_client,
                p_channel_id,
                snappy_compressed(p_message@),
            ) + old(self)@,
    {
        let message = compress(p_message.as_slice());
        let key = parcel_group_key(&message, p_channel_id, p_target_client_id);
        let ghost c = message@;
        let ghost old_q = self@;
        let len: u64 = message.len() as u64;
        let full_parcel_count: u64 = len / LARGE_PARCEL_DATA_MAX_BYTE_COUNT;
        let remaining_parcel_byte_count: u64 = len % LARGE_PARCEL_DATA_MAX_BYTE_COUNT;
        let total_parcel_count: u64 = if remaining_parcel_byte_count == 0 {
            full_parcel_count
        } else {
            full_parcel_count + 1
        };
        let ghost n = parcel_count(c.len());

        let mut i: u64 = 0;
        while i < full_parcel_count
            invariant
                c == message@,
                len == c.len(),
                len <= u32::MAX,
                full_parcel_count == len / 32,
                n == total_parcel_count,
                i <= full_parcel_count,
                full_parcel_count <= total_parcel_count,
                n == parcel_count(c.len()),
                self@ == planned_instructions(key, p_target_client_id, p_exclude_client, p_channel_id, c).subrange(n - i, n as int) + old_q,
            decreases full_parcel_count - i,
        {
            proof {
                assert((i + 1) * 32 <= len) by (nonlinear_arith)
                    requires
                        i + 1 <= len / 32,
                ;
            }
            let data = copy_range(&message, (i * 32) as usize, ((i + 1) * 32) as usize);
            let ghost before = self.queue@;
            self.queue.push_front(
                LargeParcelSendInstruction {
                    key,
                    index: i,
                    target_client_id: p_target_client_id,
                    exclude_client: p_exclude_client,
                    channel_id: p_channel_id,
                    data,
                },
            );
            proof {
                let planned = planned_instructions(key, p_target_client_id, p_exclude_client, p_channel_id, c);
                assert(n - 1 - (n - i - 1) == i);
                assert(data@ == c.subrange(i * 32, (i + 1) * 32));
                assert(parcel_piece(c, i as int) == c.subrange(i * 32, (i + 1) * 32));
                assert(planned[n - i - 1].data == parcel_piece(c, i as int));
                assert(planned[n - i - 1].data =~= data@);
                lemma_views_push_front(self.queue@[0], before);
                assert(self.queue@ == seq![self.queue@[0]] + before);
                assert(self.queue@[0]@ == planned[n - i - 1]);
                assert(planned.subrange(n - (i + 1), n as int) =~= seq![planned[n - i - 1]] + planned.subrange(n - i, n as int));
                assert(self@ =~= planned.subrange(n - (i + 1), n as int) + old_q);
            }
            i = i + 1;
        }

        if remaining_parcel_byte_count != 0 {
            proof {
                assert(full_parcel_count * 32 <= len) by (nonlinear_arith)
                    requires
                        full_parcel_count == len / 32,
                ;
                assert(full_parcel_count * 32 + 32 > len) by (nonlinear_arith)
                    requires
                        full_parcel_count == len / 32,
                ;
            }
            let data = copy_range(&message, (full_parcel_count * 32) as usize, len as usize);
            let ghost before = self.queue@;
            self.queue.push_front(
                LargeParcelSendInstruction {
                    key,
                    index: full_parcel_count,
                    target_client_id: p_target_client_id,
                    exclude_client: p_exclude_client,
                    channel_id: p_channel_id,
                    data,
                },
            );
            proof {
                let planned = planned_instructions(key, p_target_client_id, p_exclude_client, p_channel_id, c);
                assert(planned[0].data =~= data@);
                lemma_views_push_front(self.queue@[0], before);
                assert(self.queue@ == seq![self.queue@[0]] + before);
                assert(self.queue@[0]@ == planned[0]);
                assert(planned.subrange(0, n as int) =~= seq![planned[0]] + planned.subrange(1, n as int));
                assert(self@ =~= planned.subrange(0, n as int) + old_q);
            }
        }
        proof {
            let planned = planned_instructions(key, p_target_client_id, p_exclude_client, p_channel_id, c);
            assert(planned.subrange(0, n as int) =~= planned);
        }
        LargeParcelMetadataMessage { key, count: total_parcel_count }
    }

    /// Takes up to `p_max` parcels from the back of the queue, oldest first.
    pub fn take_parcels(&mut self, p_max: u8) -> (r: Vec<LargeParcelSendInstruction>)
        ensures
            r@.len() == (if p_max <= old(self)@.len() {
                p_max as int
            } else {
                old(self)@.len() as int
            }),
            forall|i: int|
                0 <= i < r@.len() ==> #[trigger] r@[i]@ == old(self)@[old(self)@.len() - 1 - i],
            final(self)@ == old(self)@.take(old(self)@.len() - r@.len()),
    {
        let mut r: Vec<LargeParcelSendInstruction> = Vec::new();
        let ghost old_q = self@;
        let mut n: u8 = 0;
        while n < p_max
            invariant_except_break
                n <= p_max,
                r@.len() == n,
                n <= old_q.len(),
                self@ == old_q.take(old_q.len() - n),
                forall|i: int| 0 <= i < r@.len() ==> #[trigger] r@[i]@ == old_q[old_q.len() - 1 - i],
            ensures
                r@.len() == (if p_max <= old_q.len() {
                    p_max as int
                } else {
                    old_q.len() as int
                }),
                self@ == old_q.take(old_q.len() - r@.len()),
                forall|i: int| 0 <= i < r@.len() ==> #[trigger] r@[i]@ == old_q[old_q.len() - 1 - i],
            decreases p_max - n,
        {
            let ghost before = self.queue@;
            match self.queue.pop_back() {
                Some(parcel) => {
                    proof {
                        lemma_views_drop_last(before);
                        assert(instruction_views(before) == old_q.take(old_q.len() - n));
                        assert(self.queue@ == before.subrange(0, before.len() - 1));
                        assert(self@ == instruction_views(before.subrange(0, before.len() - 1)));
                        assert(instruction_views(before).len() == before.len());
                        assert(before.len() == old_q.len() - n);
                        assert(self@ =~= old_q.take(old_q.len() - n - 1));
                        assert(parcel@ == old_q[old_q.len() - 1 - n]) by {
                            assert(parcel == before[before.len() - 1]);
                            assert(instruction_views(before)[before.len() - 1] == before[before.len() - 1]@);
                        }
                    }
                    r.push(parcel);
                },
                None => {
                    assert(self@.len() == 0);
                    break;
                },
            }
            n = n + 1;
        }
        r
    }
}

/// The parcels received so far of each announced group, by group key.
pub type ParcelGroups = Map<u64, Seq<Option<Seq<u8>>>>;

/// The groups after one more large-parcel message: an announcement opens an empty group, a
/// parcel fills its place in its group.
pub open spec fn accept_event(groups: ParcelGroups, e: LargeParcelEvent) -> ParcelGroups {
    match e {
        LargeParcelEvent::Metadata { key, count } => groups.insert(
            key,
            Seq::new(count as nat, |i: int| None),
        ),
        LargeParcelEvent::Body { key, index, data } => groups.insert(
            key,
            groups[key].update(index as int, Some(data)),
        ),
    }
}

/// Whether a message can be taken in: an announcement for a group that is not open, or a
/// parcel whose place exists in an open group.
pub open spec fn can_accept(groups: ParcelGroups, e: LargeParcelEvent) -> bool {
    match e {
        LargeParcelEvent::Metadata { key, count } => !groups.contains_key(key) && count
            <= usize::MAX,
        LargeParcelEvent::Body { key, index, data } => groups.contains_key(key) && index
            < groups[key].len(),
    }
}

/// Whether every parcel of a group arrived.
pub open spec fn is_complete(g: Seq<Option<Seq<u8>>>) -> bool {
    forall|i: int| 0 <= i < g.len() ==> (#[trigger] g[i]) is Some
}

/// The parcels of a complete group.
pub open spec fn unwrap_parts(g: Seq<Option<Seq<u8>>>) -> Seq<Seq<u8>> {
    Seq::new(g.len(), |i: int| g[i].unwrap())
}

/// The bytes of a complete group, joined in order.
pub open spec fn group_bytes(g: Seq<Option<Seq<u8>>>) -> Seq<u8> {
    concat(unwrap_parts(g))
}

/// The groups after the parcels `0..k` of `pieces` arrive in order under `key`.
pub open spec fn accept_pieces(groups: ParcelGroups, key: u64, pieces: Seq<Seq<u8>>, k: nat) -> ParcelGroups
    decreases k,
{
    if k == 0 {
        groups
    } else {
        accept_event(
            accept_pieces(groups, key, pieces, (k - 1) as nat),
            LargeParcelEvent::Body { key, index: (k - 1) as u64, data: pieces[k - 1] },
        )
    }
}

proof fn lemma_accept_pieces(groups: ParcelGroups, key: u64, pieces: Seq<Seq<u8>>, k: nat)
    requires
        k <= pieces.len() <= u64::MAX,
    ensures
        accept_pieces(accept_event(groups, LargeParcelEvent::Metadata { key, count: pieces.len() as u64 }), key, pieces, k).contains_key(key),
        accept_pieces(accept_event(groups, LargeParcelEvent::Metadata { key, count: pieces.len() as u64 }), key, pieces, k)[key]
            == Seq::new(pieces.len(), |i: int| if i < k { Some(pieces[i]) } else { None }),
        accept_pieces(accept_event(groups, LargeParcelEvent::Metadata { key, count: pieces.len() as u64 }), key, pieces, k).remove(key)
            == groups.remove(key),
    decreases k,
{
    let g0 = accept_event(groups, LargeParcelEvent::Metadata { key, count: pieces.len() as u64 });
    if k == 0 {
        assert(g0[key] =~= Seq::new(pieces.len(), |i: int| if i < 0 { Some(pieces[i]) } else { None }));
        assert(g0.remove(key) =~= groups.remove(key));
    } else {
        lemma_accept_pieces(groups, key, pieces, (k - 1) as nat);
        let prev = accept_pieces(g0, key, pieces, (k - 1) as nat);
        let next = accept_pieces(g0, key, pieces, k);
        assert(next[key] =~= Seq::new(pieces.len(), |i: int| if i < k { Some(pieces[i]) } else { None }));
        assert(next.remove(key) =~= prev.remove(key));
    }
}

/// A large parcel goes through: when its announcement and then its parcels, in order, reach a
/// receiver that has no open group under its key, each message can be taken in, the group ends
/// complete, and its bytes joined are the compressed message; the other groups are untouched.
pub proof fn lemma_large_parcel_roundtrip(groups: ParcelGroups, key: u64, c: Seq<u8>)
    requires
        !groups.contains_key(key),
        c.len() <= u32::MAX,
    ensures
        ({
            let pieces = parcel_pieces(c);
            let n = pieces.len();
            let announced = accept_event(groups, LargeParcelEvent::Metadata { key, count: n as u64 });
            let done = accept_pieces(announced, key, pieces, n);
            &&& can_accept(groups, LargeParcelEvent::Metadata { key, count: n as u64 })
            &&& forall|k: nat| k < n ==> #[trigger] can_accept(accept_pieces(announced, key, pieces, k),
                LargeParcelEvent::Body { key, index: k as u64, data: pieces[k as int] })
            &&& is_complete(done[key])
            &&& group_bytes(done[key]) == c
            &&& done.remove(key) == groups.remove(key)
        }),
{
    let pieces = parcel_pieces(c);
    let n = pieces.len();
    assert(n <= u32::MAX);
    let announced = accept_event(groups, LargeParcelEvent::Metadata { key, count: n as u64 });
    assert forall|k: nat| k < n implies #[trigger] can_accept(accept_pieces(announced, key, pieces, k),
        LargeParcelEvent::Body { key, index: k as u64, data: pieces[k as int] }) by {
        lemma_accept_pieces(groups, key, pieces, k);
    }
    lemma_accept_pieces(groups, key, pieces, n);
    let done = accept_pieces(announced, key, pieces, n);
    assert(unwrap_parts(done[key]) =~= pieces);
    lemma_parcels_concat(c);
}

/// The plain values of a group as received.
pub open spec fn group_view(v: Seq<Option<Vec<u8>>>) -> Seq<Option<Seq<u8>>> {
    Seq::new(
        v.len(),
        |i: int|
            match v[i] {
                Some(d) => Some(d@),
                None => None,
            },
    )
}

/// The groups that a client is putting back together, by key.
pub struct LargeParcelGroupRegistry {
    groups: Vec<(u64, Vec<Option<Vec<u8>>>)>,
}

/// The first place of a key in a list of groups.
pub open spec fn group_index(groups: Seq<(u64, Vec<Option<Vec<u8>>>)>, key: u64) -> int {
    choose|i: int| 0 <= i < groups.len() && #[trigger] groups[i].0 == key
}

impl View for LargeParcelGroupRegistry {
    type V = ParcelGroups;

    closed spec fn view(&self) -> ParcelGroups {
        Map::new(
            |key: u64| exists|i: int| 0 <= i < self.groups@.len() && #[trigger] self.groups@[i].0 == key,
            |key: u64| group_view(self.groups@[group_index(self.groups@, key)].1@),
        )
    }
}

impl LargeParcelGroupRegistry {
    /// No key occurs twice.
    pub closed spec fn wf(&self) -> bool {
        forall|i: int, j: int|
            0 <= i < self.groups@.len() && 0 <= j < self.groups@.len() && i != j ==> #[trigger] self.groups@[i].0
                != #[trigger] self.groups@[j].0
    }

    /// A registry with no open group.
    pub fn new() -> (r: LargeParcelGroupRegistry)
        ensures
            r.wf(),
            r@ == ParcelGroups::empty(),
    {
        let r = LargeParcelGroupRegistry { groups: Vec::new() };
        assert(r@ =~= ParcelGroups::empty());
        r
    }

    fn find(&self, key: u64) -> (r: Option<usize>)
        requires
            self.wf(),
        ensures
            match r {
                Some(i) => i < self.groups@.len() && self.groups@[i as int].0 == key && self@.contains_key(key)
                    && group_index(self.groups@, key) == i,
                None => !self@.contains_key(key),
            },
    {
        let mut i: usize = 0;
        while i < self.groups.len()
            invariant
                self.wf(),
                i <= self.groups@.len(),
                forall|j: int| 0 <= j < i ==> self.groups@[j].0 != key,
            decreases self.groups@.len() - i,
        {
            if self.groups[i].0 == key {
                proof {
                    let k = group_index(self.groups@, key);
                    assert(self.groups@[i as int].0 == key);
                    assert(self.groups@[k].0 == key);
                    assert(k == i);
                }
                return Some(i);
            }
            i = i + 1;
        }
        None
    }

    /// Whether `p_message` can be taken in: an announcement under a key with no open group, or a
    /// parcel whose group is open and has a place at its index.
    pub fn accepts(&self, p_message: &LargeParcelMessage) -> (r: bool)
        requires
            self.wf(),
        ensures
            r == can_accept(self@, p_message@),
    {
        match p_message {
            LargeParcelMessage::Metadata(metadata) => {
                if metadata.count > usize::MAX as u64 {
                    return false;
                }
                match self.find(metadata.key) {
                    Some(_) => false,
                    None => true,
                }
            },
            LargeParcelMessage::Body(body) => match self.find(body.key) {
                Some(i) => {
                    proof {
                        assert(self@[body.key].len() == self.groups@[i as int].1@.len());
                    }
                    (body.index as u128) < (self.groups[i].1.len() as u128)
                },
                None => false,
            },
        }
    }

    /// Takes in one large-parcel message: an announcement opens an empty group, a parcel fills
    /// its place in its group.
    pub fn accept(&mut self, p_message: LargeParcelMessage)
        requires
            old(self).wf(),
            can_accept(old(self)@, p_message@),
        ensures
            final(self).wf(),
            final(self)@ == accept_event(old(self)@, p_message@),
    {
        let ghost old_groups = self.groups@;
        let ghost e = p_message@;
        match p_message {
            LargeParcelMessage::Metadata(metadata) => {
                let count = metadata.count as usize;
                let mut parcel_group: Vec<Option<Vec<u8>>> = Vec::new();
                let mut i: usize = 0;
                while i < count
                    invariant
                        i <= count,
                        parcel_group@.len() == i,
                        forall|j: int| 0 <= j < i ==> #[trigger] parcel_group@[j] is None,
                    decreases count - i,
                {
                    parcel_group.push(None);
                    i = i + 1;
                }
                self.groups.push((metadata.key, parcel_group));
                proof {
                    let n = old_groups.len() as int;
                    assert forall|a: int, b: int|
                        0 <= a < self.groups@.len() && 0 <= b < self.groups@.len() && a != b implies #[trigger] self.groups@[a].0
                            != #[trigger] self.groups@[b].0 by {
                        if a == n {
                            assert(old_groups[b].0 == self.groups@[b].0);
                            assert(!old(self)@.contains_key(metadata.key));
                        } else if b == n {
                            assert(old_groups[a].0 == self.groups@[a].0);
                            assert(!old(self)@.contains_key(metadata.key));
                        } else {
                            assert(old_groups[a].0 != old_groups[b].0);
                        }
                    }
                    assert forall|key: u64| #![auto] self@.contains_key(key) == accept_event(old(self)@, e).contains_key(key) by {
                        if key == metadata.key {
                            assert(self.groups@[n].0 == key);
                        } else if old(self)@.contains_key(key) {
                            let k = group_index(old_groups, key);
                            assert(self.groups@[k].0 == key);
                        } else if self@.contains_key(key) {
                            let k = group_index(self.groups@, key);
                            assert(old_groups[k].0 == key);
                        }
                    }
                    assert forall|key: u64| #![auto] self@.contains_key(key) implies self@[key] == accept_event(old(self)@, e)[key] by {
                        let k = group_index(self.groups@, key);
                        if key == metadata.key {
                            assert(k == n);
                            assert(group_view(parcel_group@) =~= Seq::new(metadata.count as nat, |i: int| None::<Seq<u8>>));
                        } else {
                            assert(old_groups[k].0 == key);
                            let k2 = group_index(old_groups, key);
                            assert(old_groups[k2].0 == key);
                            assert(k2 == k);
                        }
                    }
                    assert(self@ =~= accept_event(old(self)@, e));
                }
            },
            LargeParcelMessage::Body(body) => {
                let found = self.find(body.key);
                let idx = match found {
                    Some(idx) => idx,
                    None => {
                        assert(false);
                        0
                    },
                };
                let ghost data_view = body.data@;
                let (key, mut parcel_group) = self.groups.remove(idx);
                let ghost before = parcel_group@;
                assert(before == old_groups[idx as int].1@);
                assert(group_view(before) == old(self)@[body.key]);
                assert(body.index < before.len());
                let glen = parcel_group.len();
                assert(body.index < glen);
                let index = body.index as usize;
                assert(index == body.index);
                parcel_group.set(index, Some(body.data));
                let ghost after = parcel_group@;
                assert(after == before.update(body.index as int, after[body.index as int]));
                assert(after[body.index as int] is Some);
                assert(after[body.index as int]->Some_0@ == data_view);
                assert(group_view(after) =~= group_view(before).update(body.index as int, Some(data_view)));
                self.groups.insert(idx, (key, parcel_group));
                proof {
                    assert(self.groups@ == old_groups.update(idx as int, (key, parcel_group)));
                    assert forall|a: int, b: int|
                        0 <= a < self.groups@.len() && 0 <= b < self.groups@.len() && a != b implies #[trigger] self.groups@[a].0
                            != #[trigger] self.groups@[b].0 by {
                        assert(old_groups[a].0 != old_groups[b].0);
                    }
                    assert forall|k: u64| #![auto] self@.contains_key(k) == accept_event(old(self)@, e).contains_key(k) by {
                        if old(self)@.contains_key(k) {
                            let i = group_index(old_groups, k);
                            assert(self.groups@[i].0 == k);
                        } else if self@.contains_key(k) {
                            let i = group_index(self.groups@, k);
                            assert(old_groups[i].0 == k);
                        }
                    }
                    assert forall|k: u64| #![auto] self@.contains_key(k) implies self@[k] == accept_event(old(self)@, e)[k] by {
                        let i = group_index(self.groups@, k);
                        assert(old_groups[i].0 == k);
                        let i2 = group_index(old_groups, k);
                        assert(old_groups[i2].0 == k);
                        assert(i2 == i);
                        if k == key {
                            assert(group_view(after) =~= group_view(before).update(body.index as int, Some(data_view)));
                        }
                    }
                    assert(self@ =~= accept_event(old(self)@, e));
                }
            },
        }
    }

    /// Takes out a group whose parcels have all arrived and gives its bytes joined in order;
    /// `None` when no group is complete.
    pub fn take_complete_group(&mut self) -> (r: Option<Vec<u8>>)
        requires
            old(self).wf(),
        ensures
            final(self).wf(),
            match r {
                None => final(self)@ == old(self)@ && forall|k: u64|
                    #[trigger] old(self)@.contains_key(k) ==> !is_complete(old(self)@[k]),
                Some(bytes) => exists|k: u64|
                    #[trigger] old(self)@.contains_key(k) && is_complete(old(self)@[k]) && bytes@
                        == group_bytes(old(self)@[k]) && final(self)@ == old(self)@.remove(k),
            },
    {
        let ghost old_groups = self.groups@;
        let mut i: usize = 0;
        while i < self.groups.len()
            invariant
                self.wf(),
                self.groups@ == old_groups,
                self@ == old(self)@,
                i <= self.groups@.len(),
                forall|j: int| 0 <= j < i ==> !is_complete(#[trigger] group_view(self.groups@[j].1@)),
            decreases self.groups@.len() - i,
        {
            if group_complete(&self.groups[i].1) {
                let (key, group) = self.groups.remove(i);
                let ghost gv = group_view(group@);
                let bytes = join_group(group);
                proof {
                    assert(old_groups[i as int].0 == key);
                    assert(old(self)@.contains_key(key));
                    let gi = group_index(old_groups, key);
                    assert(old_groups[gi].0 == key);
                    assert(gi == i);
                    assert(old(self)@[key] == gv);
                    assert forall|a: int, b: int|
                        0 <= a < self.groups@.len() && 0 <= b < self.groups@.len() && a != b implies #[trigger] self.groups@[a].0
                            != #[trigger] self.groups@[b].0 by {
                        let a2 = if a < i { a } else { a + 1 };
                        let b2 = if b < i { b } else { b + 1 };
                        assert(self.groups@[a] == old_groups[a2]);
                        assert(self.groups@[b] == old_groups[b2]);
                        assert(old_groups[a2].0 != old_groups[b2].0);
                    }
                    assert forall|k: u64| #![auto] self@.contains_key(k) == old(self)@.remove(key).contains_key(k) by {
                        if k != key && old(self)@.contains_key(k) {
                            let j = group_index(old_groups, k);
                            assert(old_groups[j].0 == k);
                            assert(j != i);
                            let j2 = if j < i { j } else { j - 1 };
                            assert(self.groups@[j2] == old_groups[j]);
                        }
                        if self@.contains_key(k) {
                            let j = group_index(self.groups@, k);
                            let j2 = if j < i { j } else { j + 1 };
                            assert(self.groups@[j] == old_groups[j2]);
                            assert(old_groups[j2].0 == k);
                            assert(j2 != i);
                        }
                    }
                    assert forall|k: u64| #![auto] self@.contains_key(k) implies self@[k] == old(self)@.remove(key)[k] by {
                        let j = group_index(self.groups@, k);
                        let j2 = if j < i { j } else { j + 1 };
                        assert(self.groups@[j] == old_groups[j2]);
                        let j3 = group_index(old_groups, k);
                        assert(old_groups[j3].0 == k);
                        assert(j3 == j2);
                    }
                    assert(self@ =~= old(self)@.remove(key));
                }
                return Some(bytes);
            }
            i = i + 1;
        }
        proof {
            assert forall|k: u64| #[trigger] old(self)@.contains_key(k) implies !is_complete(old(self)@[k]) by {
                let j = group_index(old_groups, k);
                assert(old_groups[j].0 == k);
            }
        }
        None
    }
}

fn group_complete(g: &Vec<Option<Vec<u8>>>) -> (r: bool)
    ensures
        r == is_complete(group_view(g@)),
{
    let mut j: usize = 0;
    while j < g.len()
        invariant
            j <= g@.len(),
            forall|k: int| 0 <= k < j ==> (#[trigger] group_view(g@)[k]) is Some,
        decreases g@.len() - j,
    {
        if g[j].is_none() {
            assert(group_view(g@)[j as int] is None);
            return false;
        }
        j = j + 1;
    }
    true
}

fn join_group(g: Vec<Option<Vec<u8>>>) -> (r: Vec<u8>)
    requires
        is_complete(group_view(g@)),
    ensures
        r@ == group_bytes(group_view(g@)),
{
    let ghost parts = unwrap_parts(group_view(g@));
    let mut r: Vec<u8> = Vec::new();
    let mut j: usize = 0;
    while j < g.len()
        invariant
            j <= g@.len(),
            parts == unwrap_parts(group_view(g@)),
            is_complete(group_view(g@)),
            r@ == concat(parts.take(j as int)),
        decreases g@.len() - j,
    {
        assert(group_view(g@)[j as int] is Some);
        match &g[j] {
            Some(d) => {
                assert(parts[j as int] == d@);
                let mut b: usize = 0;
                let ghost start = r@;
                while b < d.len()
                    invariant
                        b <= d@.len(),
                        r@ == start + d@.take(b as int),
                    decreases d@.len() - b,
                {
                    r.push(d[b]);
                    assert(r@ =~= start + d@.take(b + 1));
                    b = b + 1;
                }
                assert(d@.take(d@.len() as int) =~= d@);
                assert(parts.take(j + 1).drop_last() =~= parts.take(j as int));
            },
            None => {},
        }
        j = j + 1;
    }
    assert(parts.take(g@.len() as int) =~= parts);
    r
}

} // verus!
