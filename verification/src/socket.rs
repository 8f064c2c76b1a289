//! The pure logic of a resilient framed TCP client.
//!
//! Three pieces make the client verifiable apart from its I/O:
//!
//! - [`FrameBuffer`] reassembles the inbound byte stream into frames
//!   delimited by a configured suffix, exactly as [`split_frames`] states,
//!   however the stream is chunked;
//! - [`frame_message`] builds an outbound write: the payload with the suffix
//!   appended, so one locked write sends a whole frame;
//! - [`supervisor_action`] is the supervisor's decision table, from the
//!   disconnect flag and the reader's liveness to the action of one poll.
//!
//! The embedding performs the reads, writes, sleeps and reconnects around
//! these functions.

use vstd::prelude::*;

verus! {

/// Whether the stream is wrapped in TLS.
#[derive(Clone, Copy, Debug, PartialEq, Eq, Structural)]
pub enum Mode {
    Plain,
    Tls,
}

/// Configuration of a socket connection: the endpoint, the transport mode,
/// the frame suffix, and an optional heartbeat `(period_secs, message)`.
/// The inbound handler and the connection hooks live with the embedding.
#[derive(Debug)]
pub struct SocketConfig {
    pub url: String,
    pub mode: Mode,
    pub suffix: Vec<u8>,
    pub heartbeat: Option<(u64, Vec<u8>)>,
}

impl SocketConfig {
    /// Creates a configuration.
    pub fn new(url: String, mode: Mode, suffix: Vec<u8>, heartbeat: Option<(u64, Vec<u8>)>) -> (r:
        SocketConfig)
        ensures
            r.url == url,
            r.mode == mode,
            r.suffix == suffix,
            r.heartbeat == heartbeat,
    {
        SocketConfig { url, mode, suffix, heartbeat }
    }
}

/// The first position where `suffix` occurs in `s`, or `-1` when it does
/// not.
pub open spec fn first_suffix_at(s: Seq<u8>, suffix: Seq<u8>) -> int
    decreases s.len(),
{
    if suffix.len() == 0 {
        0
    } else if s.len() < suffix.len() {
        -1
    } else if s.take(suffix.len() as int) == suffix {
        0
    } else {
        let r = first_suffix_at(s.drop_first(), suffix);
        if r == -1 {
            -1
        } else {
            r + 1
        }
    }
}

/// The frames a byte stream holds so far, and the partial tail that remains:
/// repeatedly split at the first occurrence of `suffix`, dropping the suffix
/// from each frame.
pub open spec fn split_frames(s: Seq<u8>, suffix: Seq<u8>) -> (Seq<Seq<u8>>, Seq<u8>)
    decreases s.len(),
    via split_frames_dec
{
    if suffix.len() == 0 {
        (Seq::<Seq<u8>>::empty(), s)
    } else {
        let i = first_suffix_at(s, suffix);
        if i == -1 {
            (Seq::<Seq<u8>>::empty(), s)
        } else {
            let rec = split_frames(s.skip(i + suffix.len() as int), suffix);
            (seq![s.take(i)] + rec.0, rec.1)
        }
    }
}

#[via_fn]
proof fn split_frames_dec(s: Seq<u8>, suffix: Seq<u8>) {
    if suffix.len() > 0 {
        lemma_first_suffix_at(s, suffix);
    }
}

/// What the found position means: it carries a suffix occurrence, and no
/// earlier position does.
proof fn lemma_first_suffix_at(s: Seq<u8>, suffix: Seq<u8>)
    requires
        suffix.len() >= 1,
    ensures
        ({
            let i = first_suffix_at(s, suffix);
            &&& (i == -1 ==> forall|k: int|
                0 <= k <= s.len() - suffix.len() ==> #[trigger] s.subrange(
                    k,
                    k + suffix.len() as int,
                ) != suffix)
            &&& (i != -1 ==> 0 <= i <= s.len() - suffix.len() && s.subrange(
                i,
                i + suffix.len() as int,
            ) == suffix)
            &&& (i != -1 ==> forall|k: int|
                0 <= k < i ==> #[trigger] s.subrange(k, k + suffix.len() as int) != suffix)
        }),
    decreases s.len(),
{
    let i = first_suffix_at(s, suffix);
    if s.len() < suffix.len() {
    } else if s.take(suffix.len() as int) == suffix {
        assert(s.subrange(0, suffix.len() as int) =~= s.take(suffix.len() as int));
    } else {
        lemma_first_suffix_at(s.drop_first(), suffix);
        let d = s.drop_first();
        let r = first_suffix_at(d, suffix);
        assert forall|k: int|
            1 <= k <= s.len() - suffix.len() implies #[trigger] s.subrange(
            k,
            k + suffix.len() as int,
        ) == d.subrange(k - 1, k - 1 + suffix.len() as int) by {
            assert(s.subrange(k, k + suffix.len() as int) =~= d.subrange(
                k - 1,
                k - 1 + suffix.len() as int,
            ));
        }
        assert(s.subrange(0, suffix.len() as int) =~= s.take(suffix.len() as int));
        if r == -1 {
        } else {
            assert(s.subrange(r + 1, r + 1 + suffix.len() as int) == suffix);
        }
    }
}

/// When a suffix occurrence sits at `k` and none sits earlier, `k` is the
/// first occurrence.
proof fn lemma_first_suffix_at_found(s: Seq<u8>, suffix: Seq<u8>, k: int)
    requires
        suffix.len() >= 1,
        0 <= k <= s.len() - suffix.len(),
        s.subrange(k, k + suffix.len() as int) == suffix,
        forall|j: int| 0 <= j < k ==> #[trigger] s.subrange(j, j + suffix.len() as int)
            != suffix,
    ensures
        first_suffix_at(s, suffix) == k,
    decreases k,
{
    if k == 0 {
        assert(s.take(suffix.len() as int) =~= s.subrange(0, suffix.len() as int));
        assert(s.take(suffix.len() as int) == suffix);
        assert(first_suffix_at(s, suffix) == 0);
    } else {
        let d = s.drop_first();
        assert(s.subrange(0, 0 + suffix.len() as int) != suffix);
        assert(s.take(suffix.len() as int) =~= s.subrange(0, 0 + suffix.len() as int));
        assert(d.subrange(k - 1, k - 1 + suffix.len() as int) =~= s.subrange(
            k,
            k + suffix.len() as int,
        ));
        assert forall|j: int|
            0 <= j < k - 1 implies #[trigger] d.subrange(j, j + suffix.len() as int)
            != suffix by {
            assert(d.subrange(j, j + suffix.len() as int) =~= s.subrange(
                j + 1,
                j + 1 + suffix.len() as int,
            ));
        }
        lemma_first_suffix_at_found(d, suffix, k - 1);
    }
}

/// When no position carries a suffix occurrence, none is found.
proof fn lemma_first_suffix_at_none(s: Seq<u8>, suffix: Seq<u8>)
    requires
        suffix.len() >= 1,
        forall|j: int|
            0 <= j <= s.len() - suffix.len() ==> #[trigger] s.subrange(j, j + suffix.len() as int)
                != suffix,
    ensures
        first_suffix_at(s, suffix) == -1,
    decreases s.len(),
{
    if s.len() >= suffix.len() {
        assert(s.subrange(0, 0 + suffix.len() as int) != suffix);
        assert(s.take(suffix.len() as int) =~= s.subrange(0, 0 + suffix.len() as int));
        let d = s.drop_first();
        assert forall|j: int|
            0 <= j <= d.len() - suffix.len() implies #[trigger] d.subrange(
            j,
            j + suffix.len() as int,
        ) != suffix by {
            assert(d.subrange(j, j + suffix.len() as int) =~= s.subrange(
                j + 1,
                j + 1 + suffix.len() as int,
            ));
        }
        lemma_first_suffix_at_none(d, suffix);
    }
}

/// Chunking invariance of framing: splitting a whole stream yields the same
/// frames as splitting a first chunk and then its leftover tail followed by
/// the rest — so a reader that buffers partial tails between reads delivers
/// the same frames however the sender chunks its writes.
pub proof fn lemma_split_frames_chunked(s1: Seq<u8>, s2: Seq<u8>, suffix: Seq<u8>)
    requires
        suffix.len() >= 1,
    ensures
        split_frames(s1 + s2, suffix).0 == split_frames(s1, suffix).0 + split_frames(
            split_frames(s1, suffix).1 + s2,
            suffix,
        ).0,
        split_frames(s1 + s2, suffix).1 == split_frames(
            split_frames(s1, suffix).1 + s2,
            suffix,
        ).1,
    decreases s1.len(),
{
    lemma_first_suffix_at(s1, suffix);
    let i = first_suffix_at(s1, suffix);
    let m = suffix.len() as int;
    if i == -1 {
        assert(split_frames(s1, suffix).0 == Seq::<Seq<u8>>::empty());
        assert(split_frames(s1, suffix).1 == s1);
        assert(Seq::<Seq<u8>>::empty() + split_frames(s1 + s2, suffix).0 =~= split_frames(
            s1 + s2,
            suffix,
        ).0);
    } else {
        assert((s1 + s2).subrange(i, i + m) =~= s1.subrange(i, i + m));
        assert forall|j: int| 0 <= j < i implies #[trigger] (s1 + s2).subrange(j, j + m)
            != suffix by {
            assert((s1 + s2).subrange(j, j + m) =~= s1.subrange(j, j + m));
        }
        lemma_first_suffix_at_found(s1 + s2, suffix, i);
        let rest1 = s1.skip(i + m);
        assert((s1 + s2).take(i) =~= s1.take(i));
        assert((s1 + s2).skip(i + m) =~= rest1 + s2);
        lemma_split_frames_chunked(rest1, s2, suffix);
        let mid = split_frames(rest1, suffix);
        assert(seq![s1.take(i)] + (mid.0 + split_frames(mid.1 + s2, suffix).0) =~= (seq![
            s1.take(i),
        ] + mid.0) + split_frames(mid.1 + s2, suffix).0);
    }
}

/// An outbound write: the payload with the frame suffix appended, sent as
/// one unit so a frame is never split between writers.
pub fn frame_message(data: &[u8], suffix: &[u8]) -> (r: Vec<u8>)
    ensures
        r@ == data@ + suffix@,
{
    let mut out: Vec<u8> = Vec::new();
    let n = data.len();
    let mut i: usize = 0;
    while i < n
        invariant
            n == data@.len(),
            0 <= i <= n,
            out@ == data@.take(i as int),
        decreases n - i,
    {
        out.push(data[i]);
        proof {
            assert(out@ =~= data@.take(i + 1 as int));
        }
        i = i + 1;
    }
    let m = suffix.len();
    let mut j: usize = 0;
    while j < m
        invariant
            n == data@.len(),
            m == suffix@.len(),
            0 <= j <= m,
            out@ == data@ + suffix@.take(j as int),
        decreases m - j,
    {
        out.push(suffix[j]);
        proof {
            assert(out@ =~= data@ + suffix@.take(j + 1 as int));
        }
        j = j + 1;
    }
    proof {
        assert(data@.take(n as int) =~= data@);
        assert(data@ + suffix@.take(m as int) =~= data@ + suffix@);
    }
    out
}

/// Reassembles suffix-delimited frames from an arbitrarily chunked inbound
/// byte stream. Bytes past the last complete frame stay buffered; no public
/// state ever holds a complete undelivered frame.
#[derive(Debug)]
pub struct FrameBuffer {
    buf: Vec<u8>,
    suffix: Vec<u8>,
}

impl FrameBuffer {
    /// The buffered partial tail.
    pub closed spec fn spec_buf(&self) -> Seq<u8> {
        self.buf@
    }

    /// The frame delimiter.
    pub closed spec fn spec_suffix(&self) -> Seq<u8> {
        self.suffix@
    }

    /// Well-formedness: the delimiter is nonempty and the buffer holds no
    /// complete frame.
    pub closed spec fn wf(&self) -> bool {
        &&& self.suffix@.len() >= 1
        &&& first_suffix_at(self.buf@, self.suffix@) == -1
    }

    /// Creates an empty buffer for a delimiter.
    pub fn new(suffix: Vec<u8>) -> (r: FrameBuffer)
        requires
            suffix@.len() >= 1,
        ensures
            r.wf(),
            r.spec_suffix() == suffix@,
            r.spec_buf() == Seq::<u8>::empty(),
    {
        let r = FrameBuffer { buf: Vec::new(), suffix };
        proof {
            assert(r.buf@ =~= Seq::<u8>::empty());
        }
        r
    }

    /// The first position of the delimiter in the buffer.
    fn find_suffix(&self) -> (r: Option<usize>)
        requires
            self.suffix@.len() >= 1,
        ensures
            r is None ==> first_suffix_at(self.buf@, self.suffix@) == -1,
            r matches Some(i) ==> first_suffix_at(self.buf@, self.suffix@) == i as int,
    {
        let m = self.suffix.len();
        let n = self.buf.len();
        if n < m {
            proof {
                lemma_first_suffix_at_none(self.buf@, self.suffix@);
            }
            return None;
        }
        let mut k: usize = 0;
        while k <= n - m
            invariant
                m == self.suffix@.len(),
                n == self.buf@.len(),
                1 <= m <= n,
                0 <= k <= n - m + 1,
                forall|j: int|
                    0 <= j < k ==> #[trigger] self.buf@.subrange(j, j + m as int)
                        != self.suffix@,
            decreases n - k,
        {
            proof {
                assert(self.buf@.subrange(k as int, k as int) =~= self.suffix@.take(0));
            }
            let mut p: usize = 0;
            let mut matches = true;
            while p < m
                invariant
                    m == self.suffix@.len(),
                    n == self.buf@.len(),
                    0 <= k <= n - m,
                    0 <= p <= m,
                    matches == (self.buf@.subrange(k as int, k + p as int) == self.suffix@.take(
                        p as int,
                    )),
                decreases m - p,
            {
                let ghost pre_match = matches;
                if self.buf[k + p] != self.suffix[p] {
                    matches = false;
                } else {
                    matches = matches && true;
                }
                proof {
                    if pre_match && self.buf@[k + p] == self.suffix@[p as int] {
                        assert(self.buf@.subrange(k as int, k + (p + 1) as int)
                            =~= self.buf@.subrange(k as int, k + p as int).push(
                            self.buf@[k + p],
                        ));
                        assert(self.suffix@.take(p + 1 as int) =~= self.suffix@.take(
                            p as int,
                        ).push(self.suffix@[p as int]));
                    } else {
                        if self.buf@.subrange(k as int, k + (p + 1) as int) == self.suffix@.take(
                            p + 1 as int,
                        ) {
                            assert(self.buf@.subrange(k as int, k + (p + 1) as int).drop_last()
                                =~= self.buf@.subrange(k as int, k + p as int));
                            assert(self.suffix@.take(p + 1 as int).drop_last()
                                =~= self.suffix@.take(p as int));
                            assert(self.buf@.subrange(k as int, k + (p + 1) as int).last()
                                == self.buf@[k + p]);
                        }
                    }
                }
                p = p + 1;
            }
            proof {
                assert(self.suffix@.take(m as int) =~= self.suffix@);
            }
            if matches {
                proof {
                    lemma_first_suffix_at_found(self.buf@, self.suffix@, k as int);
                }
                return Some(k);
            }
            k = k + 1;
        }
        proof {
            lemma_first_suffix_at_none(self.buf@, self.suffix@);
        }
        None
    }

    /// Feeds one chunk of inbound bytes and returns every frame now
    /// complete, in wire order, each with its trailing delimiter stripped.
    pub fn feed(&mut self, data: &[u8]) -> (frames: Vec<Vec<u8>>)
        requires
            old(self).wf(),
        ensures
            final(self).wf(),
            final(self).spec_suffix() == old(self).spec_suffix(),
            frames.deep_view() == split_frames(
                old(self).spec_buf() + data@,
                old(self).spec_suffix(),
            ).0,
            final(self).spec_buf() == split_frames(
                old(self).spec_buf() + data@,
                old(self).spec_suffix(),
            ).1,
    {
        let ghost whole = old(self).buf@ + data@;
        let ghost suf = old(self).suffix@;
        let n = data.len();
        let mut i: usize = 0;
        while i < n
            invariant
                n == data@.len(),
                0 <= i <= n,
                self.suffix@ == suf,
                self.buf@ == old(self).buf@ + data@.take(i as int),
            decreases n - i,
        {
            self.buf.push(data[i]);
            proof {
                assert(old(self).buf@ + data@.take(i + 1 as int) =~= (old(self).buf@
                    + data@.take(i as int)).push(data@[i as int]));
            }
            i = i + 1;
        }
        proof {
            assert(old(self).buf@ + data@.take(n as int) =~= whole);
        }
        let mut frames: Vec<Vec<u8>> = Vec::new();
        proof {
            assert(frames.deep_view() =~= Seq::<Seq<u8>>::empty());
            assert(Seq::<Seq<u8>>::empty() + split_frames(whole, suf).0 =~= split_frames(
                whole,
                suf,
            ).0);
        }
        loop
            invariant
                self.suffix@ == suf,
                suf.len() >= 1,
                split_frames(whole, suf).0 == frames.deep_view() + split_frames(
                    self.buf@,
                    suf,
                ).0,
                split_frames(whole, suf).1 == split_frames(self.buf@, suf).1,
            ensures
                self.suffix@ == suf,
                first_suffix_at(self.buf@, suf) == -1,
                split_frames(whole, suf).0 == frames.deep_view() + split_frames(
                    self.buf@,
                    suf,
                ).0,
                split_frames(whole, suf).1 == split_frames(self.buf@, suf).1,
            decreases self.buf@.len(),
        {
            let ghost cur = self.buf@;
            let at = match self.find_suffix() {
                None => {
                    break ;
                },
                Some(a) => a,
            };
            proof {
                lemma_first_suffix_at(cur, suf);
            }
            let m = self.suffix.len();
            let mut frame: Vec<u8> = Vec::new();
            let mut j: usize = 0;
            while j < at
                invariant
                    self.buf@ == cur,
                    self.suffix@ == suf,
                    at + m <= cur.len(),
                    0 <= j <= at,
                    frame@ == cur.take(at as int).take(j as int),
                decreases at - j,
            {
                frame.push(self.buf[j]);
                proof {
                    assert(cur.take(at as int).take(j + 1 as int) =~= cur.take(at as int).take(
                        j as int,
                    ).push(cur[j as int]));
                }
                j = j + 1;
            }
            proof {
                assert(frame@ =~= cur.take(at as int));
            }
            let mut tail: Vec<u8> = Vec::new();
            let blen = self.buf.len();
            let mut j: usize = at + m;
            while j < blen
                invariant
                    self.buf@ == cur,
                    self.suffix@ == suf,
                    blen == cur.len(),
                    at + m <= j <= blen,
                    tail@ == cur.skip((at + m) as int).take((j - at - m) as int),
                decreases blen - j,
            {
                tail.push(self.buf[j]);
                proof {
                    assert(cur.skip((at + m) as int).take((j + 1 - at - m) as int) =~= cur.skip(
                        (at + m) as int,
                    ).take((j - at - m) as int).push(cur[j as int]));
                }
                j = j + 1;
            }
            proof {
                assert(tail@ =~= cur.skip((at + m) as int));
            }
            self.buf = tail;
            let ghost frames_before = frames.deep_view();
            proof {
                assert(frame.deep_view() =~= frame@);
            }
            frames.push(frame);
            proof {
                assert(frames.deep_view() =~= frames_before.push(cur.take(at as int)));
                assert(split_frames(cur, suf).0 == seq![cur.take(at as int)] + split_frames(
                    self.buf@,
                    suf,
                ).0);
                assert(frames_before + (seq![cur.take(at as int)] + split_frames(
                    self.buf@,
                    suf,
                ).0) =~= frames_before.push(cur.take(at as int)) + split_frames(
                    self.buf@,
                    suf,
                ).0);
            }
        }
        proof {
            assert(split_frames(self.buf@, suf).0 == Seq::<Seq<u8>>::empty());
            assert(split_frames(self.buf@, suf).1 == self.buf@);
            assert(frames.deep_view() + Seq::<Seq<u8>>::empty() =~= frames.deep_view());
        }
        frames
    }
}

/// What the supervisor does in one poll.
#[derive(Clone, Copy, Debug, PartialEq, Eq, Structural)]
pub enum SupervisorAction {
    /// Connected and not asked to stop: nothing to do.
    Idle,
    /// The connection dropped without a disconnect request: attempt one
    /// reconnect; on success the reconnection hook runs, on failure the
    /// supervisor terminates.
    Reconnect,
    /// Asked to disconnect while the reader is still up: shut the inner
    /// client down, run the disconnection hook, and terminate.
    ShutdownThenTerminate,
    /// Asked to disconnect with the reader already gone: terminate.
    Terminate,
}

/// The supervisor's decision table, from the disconnect flag and the
/// reader's liveness.
pub open spec fn spec_supervisor_action(disconnect_mode: bool, alive: bool) -> SupervisorAction {
    if !disconnect_mode && alive {
        SupervisorAction::Idle
    } else if !disconnect_mode && !alive {
        SupervisorAction::Reconnect
    } else if disconnect_mode && alive {
        SupervisorAction::ShutdownThenTerminate
    } else {
        SupervisorAction::Terminate
    }
}

/// One poll of the supervisor: the action for the observed state.
pub fn supervisor_action(disconnect_mode: bool, alive: bool) -> (a: SupervisorAction)
    ensures
        a == spec_supervisor_action(disconnect_mode, alive),
{
    if disconnect_mode {
        if alive {
            SupervisorAction::ShutdownThenTerminate
        } else {
            SupervisorAction::Terminate
        }
    } else {
        if alive {
            SupervisorAction::Idle
        } else {
            SupervisorAction::Reconnect
        }
    }
}

/// Whether the supervisor keeps polling after carrying an action out: only
/// while idle, or after a reconnect that succeeded. `reconnect_ok` reports
/// the reconnect attempt's outcome and is ignored for the other actions.
pub fn supervisor_continues(action: SupervisorAction, reconnect_ok: bool) -> (r: bool)
    ensures
        r == (action == SupervisorAction::Idle || (action == SupervisorAction::Reconnect
            && reconnect_ok)),
{
    match action {
        SupervisorAction::Idle => true,
        SupervisorAction::Reconnect => reconnect_ok,
        SupervisorAction::ShutdownThenTerminate => false,
        SupervisorAction::Terminate => false,
    }
}

} // verus!
