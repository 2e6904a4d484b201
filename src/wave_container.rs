use vstd::prelude::*;

verus! {

/// The tracks of samples, with the edit state of the selected track: a play position,
/// in and out marks, and a clipboard.
pub struct WaveContainer {
    pub data_input_port: Vec<i32>,
    pub wave_track: Vec<Vec<i32>>,
    pub data_output_port: Vec<i32>,
    pub track_selection: usize,
    pub recording_flag: Vec<bool>,
    pub pointer: usize,
    pub in_out_flag_show: bool,
    pub in_flag: usize,
    pub out_flag: usize,
    pub in_out_buffer: Vec<i32>,
}

/// `track` with `buffer` written over it from position `at` on, grown with zeros
/// where it is too short.
pub open spec fn pasted(track: Seq<i32>, buffer: Seq<i32>, at: int) -> Seq<i32> {
    let end = at + buffer.len();
    let len = if track.len() < end {
        end
    } else {
        track.len() as int
    };
    Seq::new(
        len as nat,
        |i: int|
            if at <= i < end {
                buffer[i - at]
            } else if i < track.len() {
                track[i]
            } else {
                0i32
            },
    )
}

/// `track` with `buffer` inserted at position `at`.
pub open spec fn inserted(track: Seq<i32>, buffer: Seq<i32>, at: int) -> Seq<i32> {
    track.take(at) + buffer + track.skip(at)
}

/// Pasting the samples copied between two marks back at the first mark leaves the
/// track as it was; inserting them there instead lengthens it by their number.
pub proof fn lemma_paste_back(track: Seq<i32>, in_flag: int, out_flag: int)
    requires
        0 <= in_flag <= out_flag < track.len(),
    ensures
        pasted(track, track.subrange(in_flag, out_flag + 1), in_flag) == track,
        inserted(track, track.subrange(in_flag, out_flag + 1), in_flag).len() == track.len()
            + (out_flag + 1 - in_flag),
{
    assert(pasted(track, track.subrange(in_flag, out_flag + 1), in_flag) =~= track);
}

impl WaveContainer {
    /// The samples of each track.
    pub open spec fn tracks(&self) -> Seq<Seq<i32>> {
        self.wave_track@.map_values(|t: Vec<i32>| t@)
    }

    /// The selected track.
    pub open spec fn selected(&self) -> Seq<i32> {
        self.tracks()[self.track_selection as int]
    }

    /// The fields other than the tracks are those of `other`, except the ones the
    /// caller names separately.
    pub open spec fn same_ports(&self, other: &WaveContainer) -> bool {
        &&& self.data_input_port@ == other.data_input_port@
        &&& self.data_output_port@ == other.data_output_port@
        &&& self.recording_flag@ == other.recording_flag@
    }

    /// `track_number` empty tracks, every port at 0, nothing marked or recording.
    pub fn new(track_number: usize) -> (r: WaveContainer)
        ensures
            r.tracks() == Seq::new(track_number as nat, |i: int| Seq::<i32>::empty()),
            r.data_input_port@ == Seq::new(track_number as nat, |i: int| 0i32),
            r.data_output_port@ == Seq::new(track_number as nat, |i: int| 0i32),
            r.recording_flag@ == Seq::new(track_number as nat, |i: int| false),
            r.track_selection == 0,
            r.pointer == 0,
            !r.in_out_flag_show,
            r.in_flag == 0,
            r.out_flag == 0,
            r.in_out_buffer@ == Seq::<i32>::empty(),
    {
        let mut data_input_port: Vec<i32> = Vec::new();
        let mut wave_track: Vec<Vec<i32>> = Vec::new();
        let mut data_output_port: Vec<i32> = Vec::new();
        let mut recording_flag: Vec<bool> = Vec::new();
        let mut i: usize = 0;
        while i < track_number
            invariant
                i <= track_number,
                data_input_port@ == Seq::new(i as nat, |k: int| 0i32),
                data_output_port@ == Seq::new(i as nat, |k: int| 0i32),
                recording_flag@ == Seq::new(i as nat, |k: int| false),
                wave_track@.len() == i,
                forall|k: int| 0 <= k < i ==> (#[trigger] wave_track@[k])@ == Seq::<i32>::empty(),
            decreases track_number - i,
        {
            data_input_port.push(0);
            data_output_port.push(0);
            recording_flag.push(false);
            wave_track.push(Vec::new());
            i += 1;
            assert(data_input_port@ =~= Seq::new(i as nat, |k: int| 0i32));
            assert(data_output_port@ =~= Seq::new(i as nat, |k: int| 0i32));
            assert(recording_flag@ =~= Seq::new(i as nat, |k: int| false));
        }
        assert(wave_track@.map_values(|t: Vec<i32>| t@) =~= Seq::new(
            track_number as nat,
            |k: int| Seq::<i32>::empty(),
        ));
        WaveContainer {
            data_input_port,
            wave_track,
            data_output_port,
            track_selection: 0,
            recording_flag,
            pointer: 0,
            in_out_flag_show: false,
            in_flag: 0,
            out_flag: 0,
            in_out_buffer: Vec::new(),
        }
    }

    /// Marks the play position as the start of the range, and shows the marks.
    pub fn mark_in_flag(&mut self)
        ensures
            final(self).in_out_flag_show,
            final(self).in_flag == old(self).pointer,
            final(self).out_flag == old(self).out_flag,
            final(self).pointer == old(self).pointer,
            final(self).track_selection == old(self).track_selection,
            final(self).tracks() == old(self).tracks(),
            final(self).in_out_buffer@ == old(self).in_out_buffer@,
            final(self).same_ports(old(self)),
    {
        self.in_out_flag_show = true;
        self.in_flag = self.pointer;
    }

    /// Marks the play position as the end of the range, and shows the marks.
    pub fn mark_out_flag(&mut self)
        ensures
            final(self).in_out_flag_show,
            final(self).out_flag == old(self).pointer,
            final(self).in_flag == old(self).in_flag,
            final(self).pointer == old(self).pointer,
            final(self).track_selection == old(self).track_selection,
            final(self).tracks() == old(self).tracks(),
            final(self).in_out_buffer@ == old(self).in_out_buffer@,
            final(self).same_ports(old(self)),
    {
        self.in_out_flag_show = true;
        self.out_flag = self.pointer;
    }

    /// Hides the marks; they keep their positions.
    pub fn cancel_in_out_flag(&mut self)
        ensures
            !final(self).in_out_flag_show,
            final(self).in_flag == old(self).in_flag,
            final(self).out_flag == old(self).out_flag,
            final(self).pointer == old(self).pointer,
            final(self).track_selection == old(self).track_selection,
            final(self).tracks() == old(self).tracks(),
            final(self).in_out_buffer@ == old(self).in_out_buffer@,
            final(self).same_ports(old(self)),
    {
        self.in_out_flag_show = false;
    }

    /// Where the marks are shown, copies the samples of the selected track from the in
    /// mark to the out mark, both included, into the clipboard.
    pub fn copy_in_out_track(&mut self)
        requires
            old(self).track_selection < old(self).wave_track@.len(),
            old(self).in_out_flag_show ==> old(self).in_flag <= old(self).out_flag
                < old(self).selected().len(),
        ensures
            final(self).in_out_buffer@ == if old(self).in_out_flag_show {
                old(self).selected().subrange(
                    old(self).in_flag as int,
                    old(self).out_flag as int + 1,
                )
            } else {
                old(self).in_out_buffer@
            },
            final(self).in_out_flag_show == old(self).in_out_flag_show,
            final(self).in_flag == old(self).in_flag,
            final(self).out_flag == old(self).out_flag,
            final(self).pointer == old(self).pointer,
            final(self).track_selection == old(self).track_selection,
            final(self).tracks() == old(self).tracks(),
            final(self).same_ports(old(self)),
    {
        if self.in_out_flag_show {
            let track = &self.wave_track[self.track_selection];
            let n = track.len();
            assert(self.out_flag < n);
            let end = self.out_flag + 1;
            let mut buffer: Vec<i32> = Vec::new();
            let mut i: usize = self.in_flag;
            while i < end
                invariant
                    self.in_flag <= i <= end,
                    end == self.out_flag + 1,
                    end <= track@.len(),
                    buffer@ == track@.subrange(self.in_flag as int, i as int),
                decreases end - i,
            {
                buffer.push(track[i]);
                i += 1;
                assert(buffer@ =~= track@.subrange(self.in_flag as int, i as int));
            }
            self.in_out_buffer = buffer;
        }
    }

    /// Writes the clipboard over the selected track from the play position on, growing
    /// the track with zeros where it is too short.
    pub fn paste_in_out_track(&mut self)
        requires
            old(self).track_selection < old(self).wave_track@.len(),
            old(self).pointer + old(self).in_out_buffer@.len() <= usize::MAX,
        ensures
            final(self).tracks() == old(self).tracks().update(
                old(self).track_selection as int,
                pasted(old(self).selected(), old(self).in_out_buffer@, old(self).pointer as int),
            ),
            final(self).in_out_buffer@ == old(self).in_out_buffer@,
            final(self).in_out_flag_show == old(self).in_out_flag_show,
            final(self).in_flag == old(self).in_flag,
            final(self).out_flag == old(self).out_flag,
            final(self).pointer == old(self).pointer,
            final(self).track_selection == old(self).track_selection,
            final(self).same_ports(old(self)),
    {
        let sel = self.track_selection;
        let at = self.pointer;
        let end = at + self.in_out_buffer.len();
        let old_track = &self.wave_track[sel];
        let len = if old_track.len() < end {
            end
        } else {
            old_track.len()
        };
        let ghost target = pasted(old_track@, self.in_out_buffer@, at as int);
        let mut track: Vec<i32> = Vec::new();
        let mut i: usize = 0;
        while i < len
            invariant
                i <= len,
                len == target.len(),
                old_track@ == old(self).selected(),
                end == at + self.in_out_buffer@.len(),
                target == pasted(old_track@, self.in_out_buffer@, at as int),
                track@ == target.take(i as int),
            decreases len - i,
        {
            let value = if at <= i && i < end {
                self.in_out_buffer[i - at]
            } else if i < old_track.len() {
                old_track[i]
            } else {
                0
            };
            track.push(value);
            i += 1;
            assert(track@ =~= target.take(i as int));
        }
        assert(track@ =~= target);
        self.wave_track[sel] = track;
        assert(self.tracks() =~= old(self).tracks().update(sel as int, target));
    }

    /// Inserts the clipboard into the selected track at the play position.
    pub fn insert_in_out_track(&mut self)
        requires
            old(self).track_selection < old(self).wave_track@.len(),
            old(self).pointer <= old(self).selected().len(),
        ensures
            final(self).tracks() == old(self).tracks().update(
                old(self).track_selection as int,
                inserted(old(self).selected(), old(self).in_out_buffer@, old(self).pointer as int),
            ),
            final(self).in_out_buffer@ == old(self).in_out_buffer@,
            final(self).in_out_flag_show == old(self).in_out_flag_show,
            final(self).in_flag == old(self).in_flag,
            final(self).out_flag == old(self).out_flag,
            final(self).pointer == old(self).pointer,
            final(self).track_selection == old(self).track_selection,
            final(self).same_ports(old(self)),
    {
        let sel = self.track_selection;
        let at = self.pointer;
        let old_track = &self.wave_track[sel];
        let mut track: Vec<i32> = Vec::new();
        let mut i: usize = 0;
        while i < at
            invariant
                i <= at <= old_track@.len(),
                track@ == old_track@.take(i as int),
            decreases at - i,
        {
            track.push(old_track[i]);
            i += 1;
            assert(track@ =~= old_track@.take(i as int));
        }
        let mut k: usize = 0;
        while k < self.in_out_buffer.len()
            invariant
                k <= self.in_out_buffer@.len(),
                at <= old_track@.len(),
                track@ == old_track@.take(at as int) + self.in_out_buffer@.take(k as int),
            decreases self.in_out_buffer@.len() - k,
        {
            track.push(self.in_out_buffer[k]);
            k += 1;
            assert(track@ =~= old_track@.take(at as int) + self.in_out_buffer@.take(k as int));
        }
        let mut j: usize = at;
        while j < old_track.len()
            invariant
                at <= j <= old_track@.len(),
                track@ == old_track@.take(at as int) + self.in_out_buffer@ + old_track@.subrange(
                    at as int,
                    j as int,
                ),
            decreases old_track@.len() - j,
        {
            track.push(old_track[j]);
            j += 1;
            assert(track@ =~= old_track@.take(at as int) + self.in_out_buffer@
                + old_track@.subrange(at as int, j as int));
        }
        assert(self.in_out_buffer@.take(self.in_out_buffer@.len() as int) =~= self.in_out_buffer@);
        assert(track@ =~= inserted(old_track@, self.in_out_buffer@, at as int));
        self.wave_track[sel] = track;
        assert(self.tracks() =~= old(self).tracks().update(
            sel as int,
            inserted(old(self).selected(), old(self).in_out_buffer@, at as int),
        ));
    }

    /// Makes track `track_index` the one the edits apply to.
    pub fn select_track(&mut self, track_index: usize)
        ensures
            final(self).track_selection == track_index,
            final(self).in_out_buffer@ == old(self).in_out_buffer@,
            final(self).in_out_flag_show == old(self).in_out_flag_show,
            final(self).in_flag == old(self).in_flag,
            final(self).out_flag == old(self).out_flag,
            final(self).pointer == old(self).pointer,
            final(self).tracks() == old(self).tracks(),
            final(self).same_ports(old(self)),
    {
        self.track_selection = track_index;
    }
}

} // verus!
