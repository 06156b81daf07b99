//! Least-recently-used GPU residency of decoded frames.
//!
//! An asset cache keeps at most [`GPU_FRAME_LIMIT`] frames uploaded. Every
//! frame request touches its frame (uploading it first when it is not
//! resident), which makes it the most recently used; when the touch brings
//! the count over the limit, the least recently used frame is evicted.
//! Where a frame that is not resident comes from is decided by
//! [`upload_route`].

use vstd::prelude::*;

verus! {

/// Most frames an asset keeps resident on the GPU.
pub const GPU_FRAME_LIMIT: usize = 24;

/// Resident frames in use order (front = least recently used), each with
/// its texture.
pub type ResidentFrames<T> = Seq<(u64, T)>;

/// The position of `frame` among the resident frames, or -1.
pub open spec fn frame_position<T>(entries: ResidentFrames<T>, frame: u64) -> int {
    if exists|i: int| 0 <= i < entries.len() && (#[trigger] entries[i]).0 == frame {
        choose|i: int| 0 <= i < entries.len() && (#[trigger] entries[i]).0 == frame
    } else {
        -1
    }
}

/// No frame is resident twice, and at most [`GPU_FRAME_LIMIT`] are.
pub open spec fn residency_wf<T>(entries: ResidentFrames<T>) -> bool {
    &&& entries.len() <= GPU_FRAME_LIMIT
    &&& forall|i: int, j: int| 0 <= i < j < entries.len() ==> entries[i].0 != entries[j].0
}

/// The resident frames after touching `frame`: it moves to the back (with
/// the `uploaded` texture when one is given), and the front frame is
/// evicted when the count exceeds the limit.
pub open spec fn touch_entries<T>(entries: ResidentFrames<T>, frame: u64, uploaded: Option<T>) -> ResidentFrames<T> {
    let p = frame_position(entries, frame);
    let moved = if p >= 0 {
        let texture = match uploaded {
            Some(t) => t,
            None => entries[p].1,
        };
        entries.remove(p).push((frame, texture))
    } else {
        entries.push((frame, uploaded->0))
    };
    if moved.len() > GPU_FRAME_LIMIT { moved.drop_first() } else { moved }
}

proof fn lemma_position_unique<T>(entries: ResidentFrames<T>, i: int)
    requires
        residency_wf(entries),
        0 <= i < entries.len(),
    ensures
        frame_position(entries, entries[i].0) == i,
{
    let f = entries[i].0;
    assert(exists|k: int| 0 <= k < entries.len() && (#[trigger] entries[k]).0 == f) by {
        assert(entries[i].0 == f);
    }
    let j = frame_position(entries, f);
    if j != i {
        if j < i {
            assert(entries[j].0 != entries[i].0);
        } else {
            assert(entries[i].0 != entries[j].0);
        }
    }
}

/// The GPU-resident frames of one asset, with their textures of type `T`.
pub struct GpuResidency<T> {
    entries: Vec<(u64, T)>,
}

impl<T> GpuResidency<T> {
    /// Resident frames and textures in use order (front = least recent).
    pub closed spec fn entries(&self) -> ResidentFrames<T> {
        self.entries@
    }

    /// No duplicate frames, at most [`GPU_FRAME_LIMIT`] of them.
    pub closed spec fn wf(&self) -> bool {
        residency_wf(self.entries@)
    }

    /// No resident frames.
    pub fn new() -> (r: Self)
        ensures
            r.wf(),
            r.entries() == Seq::<(u64, T)>::empty(),
    {
        GpuResidency { entries: Vec::new() }
    }

    /// Number of resident frames.
    pub fn len(&self) -> (n: usize)
        ensures
            n == self.entries().len(),
    {
        self.entries.len()
    }

    fn position(&self, frame: u64) -> (p: Option<usize>)
        requires
            self.wf(),
        ensures
            match p {
                Some(i) => i as int == frame_position(self.entries(), frame) && i < self.entries().len(),
                None => frame_position(self.entries(), frame) == -1,
            },
    {
        let mut i: usize = 0;
        while i < self.entries.len()
            invariant
                i <= self.entries@.len(),
                residency_wf(self.entries@),
                forall|j: int| 0 <= j < i ==> self.entries@[j].0 != frame,
            decreases self.entries@.len() - i,
        {
            if self.entries[i].0 == frame {
                proof {
                    lemma_position_unique(self.entries@, i as int);
                }
                return Some(i);
            }
            i += 1;
        }
        assert(!exists|k: int| 0 <= k < self.entries@.len() && (#[trigger] self.entries@[k]).0 == frame);
        None
    }

    /// Whether `frame` is resident.
    pub fn is_resident(&self, frame: u64) -> (b: bool)
        requires
            self.wf(),
        ensures
            b == (frame_position(self.entries(), frame) >= 0),
    {
        self.position(frame).is_some()
    }

    /// The texture of a resident `frame`.
    pub fn get(&self, frame: u64) -> (t: Option<&T>)
        requires
            self.wf(),
        ensures
            match t {
                Some(t) => {
                    let p = frame_position(self.entries(), frame);
                    p >= 0 && *t == self.entries()[p].1
                },
                None => frame_position(self.entries(), frame) == -1,
            },
    {
        match self.position(frame) {
            Some(i) => Some(&self.entries[i].1),
            None => None,
        }
    }

    /// Marks `frame` as the most recently used, storing `uploaded` as its
    /// texture when given (a frame that is not resident must come with
    /// one), and evicts the least recently used frame when the count
    /// exceeds the limit.
    pub fn touch(&mut self, frame: u64, uploaded: Option<T>)
        requires
            old(self).wf(),
            uploaded is Some || frame_position(old(self).entries(), frame) >= 0,
        ensures
            final(self).wf(),
            final(self).entries() == touch_entries(old(self).entries(), frame, uploaded),
            frame_position(old(self).entries(), frame) >= 0 ==> {
                let p = frame_position(old(self).entries(), frame);
                &&& final(self).entries().len() == old(self).entries().len()
                &&& forall|k: int| 0 <= k < p ==> #[trigger] final(self).entries()[k] == old(self).entries()[k]
                &&& forall|k: int| p < k < old(self).entries().len()
                    ==> final(self).entries()[k - 1] == #[trigger] old(self).entries()[k]
            },
    {
        let ghost before = self.entries@;
        proof {
            lemma_touch_keeps_wf(before, frame, uploaded);
        }
        match self.position(frame) {
            Some(i) => {
                let (_, previous) = self.entries.remove(i);
                let texture = match uploaded {
                    Some(t) => t,
                    None => previous,
                };
                self.entries.push((frame, texture));
            },
            None => {
                if let Some(t) = uploaded {
                    self.entries.push((frame, t));
                }
            },
        }
        if self.entries.len() > GPU_FRAME_LIMIT {
            let _ = self.entries.remove(0);
        }
        assert(self.entries@ =~= touch_entries(before, frame, uploaded));
        proof {
            if frame_position(before, frame) >= 0 {
                lemma_touch_resident_keeps_use_order(before, frame, uploaded);
            }
        }
    }
}

/// Law: touching keeps the residency well formed: at most
/// [`GPU_FRAME_LIMIT`] frames, none twice.
pub proof fn lemma_touch_keeps_wf<T>(entries: ResidentFrames<T>, frame: u64, uploaded: Option<T>)
    requires
        residency_wf(entries),
        uploaded is Some || frame_position(entries, frame) >= 0,
    ensures
        residency_wf(touch_entries(entries, frame, uploaded)),
{
    let p = frame_position(entries, frame);
    let result = touch_entries(entries, frame, uploaded);
    if p >= 0 {
        let removed = entries.remove(p);
        assert forall|a: int| 0 <= a < removed.len() implies removed[a].0 != frame by {
            let k = if a < p { a } else { a + 1 };
            assert(removed[a] == entries[k]);
            lemma_position_unique(entries, k);
        }
        let moved = removed.push((frame, if uploaded is Some { uploaded->0 } else { entries[p].1 }));
        assert forall|a: int, b: int| 0 <= a < b < moved.len() implies moved[a].0 != moved[b].0 by {
            if b < removed.len() {
                let ka = if a < p { a } else { a + 1 };
                let kb = if b < p { b } else { b + 1 };
                assert(removed[a] == entries[ka]);
                assert(removed[b] == entries[kb]);
            }
        }
        assert(result == moved);
    } else {
        assert forall|a: int| 0 <= a < entries.len() implies entries[a].0 != frame by {
            if entries[a].0 == frame {
                assert(exists|k: int| 0 <= k < entries.len() && (#[trigger] entries[k]).0 == frame);
            }
        }
        let moved = entries.push((frame, uploaded->0));
        assert forall|a: int, b: int| 0 <= a < b < moved.len() implies moved[a].0 != moved[b].0 by {
            if b < entries.len() {
                assert(moved[a] == entries[a]);
                assert(moved[b] == entries[b]);
            }
        }
        if moved.len() > GPU_FRAME_LIMIT {
            assert forall|a: int, b: int| 0 <= a < b < result.len() implies result[a].0 != result[b].0 by {
                assert(result[a] == moved[a + 1]);
                assert(result[b] == moved[b + 1]);
            }
        }
    }
}

/// Law: after a touch, the touched frame is resident as the most recently
/// used one, with the uploaded texture when one was given and its previous
/// texture otherwise.
pub proof fn lemma_touched_frame_is_most_recent<T>(entries: ResidentFrames<T>, frame: u64, uploaded: Option<T>)
    requires
        residency_wf(entries),
        uploaded is Some || frame_position(entries, frame) >= 0,
    ensures
        touch_entries(entries, frame, uploaded).len() > 0,
        touch_entries(entries, frame, uploaded).last().0 == frame,
        touch_entries(entries, frame, uploaded).last().1 == (match uploaded {
            Some(t) => t,
            None => entries[frame_position(entries, frame)].1,
        }),
{
}

/// Law: a touch evicts nothing but the least recently used frame, and only
/// when a frame that was not resident arrives at full capacity; every other
/// frame stays resident with its texture.
pub proof fn lemma_touch_evicts_only_lru<T>(entries: ResidentFrames<T>, frame: u64, uploaded: Option<T>, k: int)
    requires
        residency_wf(entries),
        uploaded is Some || frame_position(entries, frame) >= 0,
        0 <= k < entries.len(),
        entries[k].0 != frame,
        !(k == 0 && frame_position(entries, frame) == -1 && entries.len() == GPU_FRAME_LIMIT),
    ensures
        touch_entries(entries, frame, uploaded).contains(entries[k]),
{
    let p = frame_position(entries, frame);
    let result = touch_entries(entries, frame, uploaded);
    if p >= 0 {
        let removed = entries.remove(p);
        let idx = if k < p { k } else { k - 1 };
        if k == p {
            lemma_position_unique(entries, k);
        }
        assert(removed[idx] == entries[k]);
        assert(result[idx] == entries[k]);
    } else {
        let moved = entries.push((frame, uploaded->0));
        if moved.len() > GPU_FRAME_LIMIT {
            assert(result[k - 1] == entries[k]);
        } else {
            assert(result[k] == entries[k]);
        }
    }
}

/// Law: touching a resident frame keeps the use order of every other
/// frame: the result is the old order with the frame taken out and put at
/// the back, so the least recently used frame stays at the front and
/// nothing is evicted.
pub proof fn lemma_touch_resident_keeps_use_order<T>(entries: ResidentFrames<T>, frame: u64, uploaded: Option<T>)
    requires
        residency_wf(entries),
        frame_position(entries, frame) >= 0,
    ensures
        ({
            let p = frame_position(entries, frame);
            let result = touch_entries(entries, frame, uploaded);
            &&& result.len() == entries.len()
            &&& forall|k: int| 0 <= k < p ==> #[trigger] result[k] == entries[k]
            &&& forall|k: int| p < k < entries.len() ==> result[k - 1] == #[trigger] entries[k]
            &&& result[entries.len() - 1].0 == frame
        }),
{
    let p = frame_position(entries, frame);
    let removed = entries.remove(p);
    assert(p < entries.len());
    assert(removed.len() + 1 <= GPU_FRAME_LIMIT);
    let result = touch_entries(entries, frame, uploaded);
    assert forall|k: int| 0 <= k < p implies #[trigger] result[k] == entries[k] by {
        assert(removed[k] == entries[k]);
    }
    assert forall|k: int| p < k < entries.len() implies result[k - 1] == #[trigger] entries[k] by {
        assert(removed[k - 1] == entries[k]);
    }
}

/// Law: touching a frame that is not resident appends it at the back; the
/// resident frames keep their order, and only when the count would exceed
/// the limit is the front (least recently used) frame evicted.
pub proof fn lemma_touch_new_frame_appends<T>(entries: ResidentFrames<T>, frame: u64, t: T)
    requires
        residency_wf(entries),
        frame_position(entries, frame) == -1,
    ensures
        ({
            let result = touch_entries(entries, frame, Some(t));
            let evicted: int = if entries.len() == GPU_FRAME_LIMIT { 1 } else { 0 };
            &&& result.len() == entries.len() + 1 - evicted
            &&& forall|k: int| evicted <= k < entries.len() ==> result[k - evicted] == #[trigger] entries[k]
            &&& result.last() == (frame, t)
        }),
{
    let result = touch_entries(entries, frame, Some(t));
    let moved = entries.push((frame, t));
    let evicted: int = if entries.len() == GPU_FRAME_LIMIT { 1 } else { 0 };
    assert forall|k: int| evicted <= k < entries.len() implies result[k - evicted] == #[trigger] entries[k] by {
        assert(moved[k] == entries[k]);
    }
}

/// Where the texture of a requested frame comes from.
#[derive(Clone, Copy, PartialEq, Eq, Structural, Debug)]
pub enum UploadRoute {
    /// The frame is GPU-resident; nothing is uploaded.
    Resident,
    /// Upload the cached proxy of the frame.
    CachedProxy,
    /// Decode the frame (without caching the full-size frame), downscale
    /// it to the proxy height, cache and upload the proxy.
    DecodeProxy,
    /// Upload the CPU-cached (decoded or prefetched) frame.
    CachedFrame,
    /// Decode the frame synchronously, cache and upload it.
    Decode,
}

/// The route of a frame request: resident frames are served as they are;
/// with proxies enabled the proxy is used, cached or freshly made; else the
/// CPU-cached frame, else a synchronous decode.
pub open spec fn upload_route_spec(resident: bool, proxy_enabled: bool, proxy_cached: bool, frame_cached: bool) -> UploadRoute {
    if resident {
        UploadRoute::Resident
    } else if proxy_enabled {
        if proxy_cached { UploadRoute::CachedProxy } else { UploadRoute::DecodeProxy }
    } else if frame_cached {
        UploadRoute::CachedFrame
    } else {
        UploadRoute::Decode
    }
}

/// Law: what each route is chosen for. A resident frame is never
/// uploaded; with proxies enabled a frame that is not resident always
/// takes a proxy route (the cached proxy, or a freshly decoded one),
/// whatever the CPU frame cache holds; without proxies the CPU-cached frame
/// is used when there is one, and only otherwise is the frame decoded at
/// full size.
pub proof fn lemma_upload_route_choices(resident: bool, proxy_enabled: bool, proxy_cached: bool, frame_cached: bool)
    ensures
        ({
            let r = upload_route_spec(resident, proxy_enabled, proxy_cached, frame_cached);
            &&& (r == UploadRoute::Resident) == resident
            &&& (r == UploadRoute::CachedProxy || r == UploadRoute::DecodeProxy) == (!resident && proxy_enabled)
            &&& (r == UploadRoute::CachedProxy) == (!resident && proxy_enabled && proxy_cached)
            &&& (r == UploadRoute::CachedFrame) == (!resident && !proxy_enabled && frame_cached)
            &&& (r == UploadRoute::Decode) == (!resident && !proxy_enabled && !frame_cached)
            &&& proxy_enabled ==> r == upload_route_spec(resident, proxy_enabled, proxy_cached, !frame_cached)
        }),
{
}

/// Chooses where the texture of a requested frame comes from (see
/// [`upload_route_spec`]).
pub fn upload_route(resident: bool, proxy_enabled: bool, proxy_cached: bool, frame_cached: bool) -> (route: UploadRoute)
    ensures
        route == upload_route_spec(resident, proxy_enabled, proxy_cached, frame_cached),
        (route == UploadRoute::Resident) == resident,
        (route == UploadRoute::CachedProxy) == (!resident && proxy_enabled && proxy_cached),
        (route == UploadRoute::DecodeProxy) == (!resident && proxy_enabled && !proxy_cached),
        (route == UploadRoute::CachedFrame) == (!resident && !proxy_enabled && frame_cached),
        (route == UploadRoute::Decode) == (!resident && !proxy_enabled && !frame_cached),
{
    if resident {
        UploadRoute::Resident
    } else if proxy_enabled {
        if proxy_cached {
            UploadRoute::CachedProxy
        } else {
            UploadRoute::DecodeProxy
        }
    } else if frame_cached {
        UploadRoute::CachedFrame
    } else {
        UploadRoute::Decode
    }
}

} // verus!
