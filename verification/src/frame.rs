//! A pool of frame allocations for reuse, keyed by what a frame can stand in for.

use vstd::prelude::*;

verus! {

/// What a pooled video frame can stand in for: pixel format (by its code), width and
/// height.
#[derive(Clone, Copy, Debug, PartialEq, Eq, Structural)]
pub struct VideoKey {
    /// Pixel format code.
    pub format: u32,
    /// Width in pixels.
    pub width: u32,
    /// Height in pixels.
    pub height: u32,
}

/// What a pooled audio frame can stand in for: sample format (by its code), sample
/// rate and channel layout (by its code).
#[derive(Clone, Copy, Debug, PartialEq, Eq, Structural)]
pub struct AudioKey {
    /// Sample format code.
    pub format: u32,
    /// Sample rate in Hz.
    pub sample_rate: u32,
    /// Channel layout code.
    pub channels: u32,
}

/// The first position, from `i` on, of an entry of `s` with key `key`.
pub open spec fn first_with_key<K, F>(s: Seq<(K, F)>, key: K, i: nat) -> Option<nat>
    decreases s.len() - i,
{
    if i >= s.len() {
        None
    } else if s[i as int].0 == key {
        Some(i)
    } else {
        first_with_key(s, key, i + 1)
    }
}

/// `s` after taking out the entry at `i`, the last entry moving into its place.
pub open spec fn swap_removed<T>(s: Seq<T>, i: int) -> Seq<T> {
    s.update(i, s.last()).drop_last()
}

/// The pool after a request for `key`: unchanged when no entry has that key,
/// otherwise without the first entry that has it.
pub open spec fn after_take<K, F>(s: Seq<(K, F)>, key: K) -> Seq<(K, F)> {
    match first_with_key(s, key, 0) {
        Some(i) => swap_removed(s, i as int),
        None => s,
    }
}

/// The pool after giving back a frame: kept when there is room below `capacity`.
pub open spec fn after_give<K, F>(s: Seq<(K, F)>, capacity: nat, key: K, frame: F) -> Seq<(K, F)> {
    if s.len() < capacity {
        s.push((key, frame))
    } else {
        s
    }
}

proof fn lemma_first_with_key_found<K, F>(s: Seq<(K, F)>, key: K, i: nat)
    ensures
        match first_with_key(s, key, i) {
            Some(j) => i <= j < s.len() && s[j as int].0 == key,
            None => forall|k: int| i <= k < s.len() ==> s[k].0 != key,
        },
    decreases s.len() - i,
{
    if i < s.len() && s[i as int].0 != key {
        lemma_first_with_key_found(s, key, i + 1);
    }
}

/// Takes out of `frames` the first entry with key `key`, if any.
fn take_first_video<F>(frames: &mut Vec<(VideoKey, F)>, key: VideoKey) -> (r: Option<F>)
    ensures
        final(frames)@ == after_take(old(frames)@, key),
        match first_with_key(old(frames)@, key, 0) {
            Some(i) => r == Some(old(frames)@[i as int].1),
            None => r is None,
        },
{
    let mut i: usize = 0;
    while i < frames.len()
        invariant
            i <= frames@.len(),
            frames@ == old(frames)@,
            first_with_key(frames@, key, 0) == first_with_key(frames@, key, i as nat),
        decreases frames@.len() - i,
    {
        if frames[i].0 == key {
            let (_, f) = frames.swap_remove(i);
            return Some(f);
        }
        i += 1;
    }
    None
}

/// Takes out of `frames` the first entry with key `key`, if any.
fn take_first_audio<F>(frames: &mut Vec<(AudioKey, F)>, key: AudioKey) -> (r: Option<F>)
    ensures
        final(frames)@ == after_take(old(frames)@, key),
        match first_with_key(old(frames)@, key, 0) {
            Some(i) => r == Some(old(frames)@[i as int].1),
            None => r is None,
        },
{
    let mut i: usize = 0;
    while i < frames.len()
        invariant
            i <= frames@.len(),
            frames@ == old(frames)@,
            first_with_key(frames@, key, 0) == first_with_key(frames@, key, i as nat),
        decreases frames@.len() - i,
    {
        if frames[i].0 == key {
            let (_, f) = frames.swap_remove(i);
            return Some(f);
        }
        i += 1;
    }
    None
}

/// Frame pool for reusing frame allocations.
///
/// Frames are pooled with the key they can stand in for; at most `capacity` video
/// and `capacity` audio frames are kept.
pub struct FramePool<V, A> {
    /// Maximum number of frames to keep in the pool.
    capacity: usize,
    /// Pooled video frames.
    video_frames: Vec<(VideoKey, V)>,
    /// Pooled audio frames.
    audio_frames: Vec<(AudioKey, A)>,
}

impl<V, A> FramePool<V, A> {
    /// The most frames of each kind the pool keeps.
    pub closed spec fn spec_capacity(&self) -> nat {
        self.capacity as nat
    }

    /// The pooled video frames with their keys.
    pub closed spec fn video(&self) -> Seq<(VideoKey, V)> {
        self.video_frames@
    }

    /// The pooled audio frames with their keys.
    pub closed spec fn audio(&self) -> Seq<(AudioKey, A)> {
        self.audio_frames@
    }

    /// The pool never holds more frames of a kind than its capacity.
    pub open spec fn wf(&self) -> bool {
        &&& self.video().len() <= self.spec_capacity()
        &&& self.audio().len() <= self.spec_capacity()
    }

    /// Create a new frame pool with the given capacity.
    pub fn new(capacity: usize) -> (p: Self)
        ensures
            p.wf(),
            p.spec_capacity() == capacity,
            p.video() == Seq::<(VideoKey, V)>::empty(),
            p.audio() == Seq::<(AudioKey, A)>::empty(),
    {
        FramePool { capacity, video_frames: Vec::new(), audio_frames: Vec::new() }
    }

    /// Take a pooled video frame that stands in for `key`, if there is one (the
    /// caller allocates a new frame otherwise). The first such frame is taken; the
    /// last pooled frame moves into its place.
    pub fn get_video_frame(&mut self, key: VideoKey) -> (r: Option<V>)
        requires
            old(self).wf(),
        ensures
            final(self).wf(),
            final(self).spec_capacity() == old(self).spec_capacity(),
            final(self).audio() == old(self).audio(),
            final(self).video() == after_take(old(self).video(), key),
            match first_with_key(old(self).video(), key, 0) {
                Some(i) => r == Some(old(self).video()[i as int].1),
                None => r is None,
            },
    {
        proof {
            lemma_first_with_key_found(self.video_frames@, key, 0);
        }
        take_first_video(&mut self.video_frames, key)
    }

    /// Return a video frame to the pool; it is kept if the pool has room.
    pub fn return_video_frame(&mut self, key: VideoKey, frame: V)
        requires
            old(self).wf(),
        ensures
            final(self).wf(),
            final(self).spec_capacity() == old(self).spec_capacity(),
            final(self).audio() == old(self).audio(),
            final(self).video() == after_give(old(self).video(), old(self).spec_capacity(), key, frame),
    {
        if self.video_frames.len() < self.capacity {
            self.video_frames.push((key, frame));
        }
    }

    /// Take a pooled audio frame that stands in for `key`, if there is one (the
    /// caller allocates a new frame otherwise). The first such frame is taken; the
    /// last pooled frame moves into its place.
    pub fn get_audio_frame(&mut self, key: AudioKey) -> (r: Option<A>)
        requires
            old(self).wf(),
        ensures
            final(self).wf(),
            final(self).spec_capacity() == old(self).spec_capacity(),
            final(self).video() == old(self).video(),
            final(self).audio() == after_take(old(self).audio(), key),
            match first_with_key(old(self).audio(), key, 0) {
                Some(i) => r == Some(old(self).audio()[i as int].1),
                None => r is None,
            },
    {
        proof {
            lemma_first_with_key_found(self.audio_frames@, key, 0);
        }
        take_first_audio(&mut self.audio_frames, key)
    }

    /// Return an audio frame to the pool; it is kept if the pool has room.
    pub fn return_audio_frame(&mut self, key: AudioKey, frame: A)
        requires
            old(self).wf(),
        ensures
            final(self).wf(),
            final(self).spec_capacity() == old(self).spec_capacity(),
            final(self).video() == old(self).video(),
            final(self).audio() == after_give(old(self).audio(), old(self).spec_capacity(), key, frame),
    {
        if self.audio_frames.len() < self.capacity {
            self.audio_frames.push((key, frame));
        }
    }

    /// Clear all pooled frames.
    pub fn clear(&mut self)
        ensures
            final(self).wf(),
            final(self).spec_capacity() == old(self).spec_capacity(),
            final(self).video() == Seq::<(VideoKey, V)>::empty(),
            final(self).audio() == Seq::<(AudioKey, A)>::empty(),
    {
        self.video_frames.clear();
        self.audio_frames.clear();
    }

    /// Get the number of video frames in the pool.
    pub fn video_frame_count(&self) -> (n: usize)
        ensures
            n == self.video().len(),
    {
        self.video_frames.len()
    }

    /// Get the number of audio frames in the pool.
    pub fn audio_frame_count(&self) -> (n: usize)
        ensures
            n == self.audio().len(),
    {
        self.audio_frames.len()
    }
}

impl<V, A> Default for FramePool<V, A> {
    fn default() -> (p: Self)
        ensures
            p.wf(),
            p.spec_capacity() == 16,
            p.video() == Seq::<(VideoKey, V)>::empty(),
            p.audio() == Seq::<(AudioKey, A)>::empty(),
    {
        Self::new(16)
    }
}

/// A frame given back to a pool with room can be had again: a request for its key
/// then finds a frame, and the pool is back to its size before.
pub proof fn lemma_returned_frame_can_be_taken<K, F>(s: Seq<(K, F)>, capacity: nat, key: K, frame: F)
    requires
        s.len() < capacity,
    ensures
        first_with_key(after_give(s, capacity, key, frame), key, 0) is Some,
        after_take(after_give(s, capacity, key, frame), key).len() == s.len(),
{
    let t = after_give(s, capacity, key, frame);
    lemma_first_with_key_found(t, key, 0);
    assert(t[s.len() as int].0 == key);
}

/// Taking from a pool removes exactly one frame when one matches, none otherwise.
pub proof fn lemma_take_shrinks_by_one<K, F>(s: Seq<(K, F)>, key: K)
    ensures
        first_with_key(s, key, 0) is Some ==> after_take(s, key).len() == s.len() - 1,
        first_with_key(s, key, 0) is None ==> after_take(s, key) == s,
{
    lemma_first_with_key_found(s, key, 0);
}

} // verus!
