//! Editor state that the timeline operations read and update: drag bookkeeping, the next clip
//! id, pending requests, and the play/pause state of the audio transport.
use vstd::prelude::*;
use crate::timeline::PropertyValue;

verus! {

/// What the audio player is to do after a transport change.
#[derive(Clone, Copy, PartialEq, Eq, Debug)]
pub enum AudioCommand {
    Play,
    Pause,
    /// Seek to the given frame.
    Seek(u32),
}

pub struct EditorState {
    pub beats_per_bar: u32,
    /// Frames the current drag has already moved the selection by.
    pub drag_offset: i32,
    /// Tracks the current drag has already moved the selection by.
    pub track_offset: i32,
    pub snapping_points: Vec<i32>,
    pub drag_start_position: i32,
    pub next_clip_id: u32,
    /// Index of the generator schema whose clip is about to be inserted.
    pub insert_clip_schema: Option<usize>,
    /// Property values, group by group, that the clip about to be inserted takes.
    pub insert_clip_properties: Option<Vec<Vec<PropertyValue>>>,
    pub just_inserted_clip: Option<u32>,
    /// Widget that asks for a clip to be picked, and the id of the clip picked for it.
    pub select_clip_request: Option<u32>,
    pub select_clip_response: Option<u32>,
    pub renaming_clip: Option<u32>,
    /// Schema index and id of an animation clip waiting for a new target clip.
    pub retarget_clip_request: Option<(usize, u32)>,
    pub retarget_clip_response: Option<u32>,
    /// An animation about to be inserted: the id and schema index of the animated clip, the
    /// group and property index of the animated property, its value, and the frame it was
    /// picked at.
    pub insert_animation: Option<(u32, usize, usize, usize, PropertyValue, u32)>,
    pub current_frame: u32,
    pub is_playing: bool,
}

impl EditorState {
    pub fn new(beats_per_bar: u32) -> (s: Self)
        ensures
            s.beats_per_bar == beats_per_bar,
            s.drag_offset == 0,
            s.track_offset == 0,
            s.snapping_points@.len() == 0,
            s.drag_start_position == 0,
            s.next_clip_id == 0,
            s.insert_clip_schema is None,
            s.insert_clip_properties is None,
            s.just_inserted_clip is None,
            s.select_clip_request is None,
            s.select_clip_response is None,
            s.renaming_clip is None,
            s.retarget_clip_request is None,
            s.retarget_clip_response is None,
            s.insert_animation is None,
            s.current_frame() == 0,
            !s.is_playing(),
    {
        EditorState {
            beats_per_bar,
            drag_offset: 0,
            track_offset: 0,
            snapping_points: Vec::new(),
            drag_start_position: 0,
            next_clip_id: 0,
            insert_clip_schema: None,
            insert_clip_properties: None,
            just_inserted_clip: None,
            select_clip_request: None,
            select_clip_response: None,
            renaming_clip: None,
            retarget_clip_request: None,
            retarget_clip_response: None,
            insert_animation: None,
            current_frame: 0,
            is_playing: false,
        }
    }

    pub open spec fn spec_current_frame(&self) -> u32 {
        self.current_frame
    }

    pub open spec fn spec_is_playing(&self) -> bool {
        self.is_playing
    }

    /// Records the frame that the audio player is at.
    pub fn update(&mut self, current_frame: u32)
        ensures
            final(self).spec_current_frame() == current_frame,
            final(self).spec_is_playing() == old(self).spec_is_playing(),
    {
        self.current_frame = current_frame;
    }

    #[verifier::when_used_as_spec(spec_is_playing)]
    pub fn is_playing(&self) -> (b: bool)
        ensures
            b == self.spec_is_playing(),
    {
        self.is_playing
    }

    #[verifier::when_used_as_spec(spec_current_frame)]
    pub fn current_frame(&self) -> (f: u32)
        ensures
            f == self.spec_current_frame(),
    {
        self.current_frame
    }

    /// Starts playback; returns the command for the audio player when it was paused.
    pub fn play(&mut self) -> (cmd: Option<AudioCommand>)
        ensures
            final(self).spec_is_playing(),
            final(self).spec_current_frame() == old(self).spec_current_frame(),
            cmd == if old(self).spec_is_playing() {
                None
            } else {
                Some(AudioCommand::Play)
            },
    {
        if !self.is_playing {
            self.is_playing = true;
            Some(AudioCommand::Play)
        } else {
            None
        }
    }

    /// Stops playback; returns the command for the audio player when it was playing.
    pub fn pause(&mut self) -> (cmd: Option<AudioCommand>)
        ensures
            !final(self).spec_is_playing(),
            final(self).spec_current_frame() == old(self).spec_current_frame(),
            cmd == if old(self).spec_is_playing() {
                Some(AudioCommand::Pause)
            } else {
                None
            },
    {
        if self.is_playing {
            self.is_playing = false;
            Some(AudioCommand::Pause)
        } else {
            None
        }
    }

    /// Toggles playback.
    pub fn play_pause(&mut self) -> (cmd: Option<AudioCommand>)
        ensures
            final(self).spec_is_playing() == !old(self).spec_is_playing(),
            final(self).spec_current_frame() == old(self).spec_current_frame(),
            cmd == if old(self).spec_is_playing() {
                Some(AudioCommand::Pause)
            } else {
                Some(AudioCommand::Play)
            },
    {
        if self.is_playing {
            self.pause()
        } else {
            self.play()
        }
    }

    /// The command that moves the audio player to `frame`.
    pub fn seek_to_frame(&self, frame: u32) -> (cmd: AudioCommand)
        ensures
            cmd == AudioCommand::Seek(frame),
    {
        AudioCommand::Seek(frame)
    }

    /// The command that moves the audio player by `relative_frame` frames, stopping at frame 0.
    pub fn seek_relative(&self, relative_frame: i32) -> (cmd: AudioCommand)
        requires
            self.spec_current_frame() <= i32::MAX,
            i32::MIN <= self.spec_current_frame() + relative_frame <= i32::MAX,
        ensures
            cmd == AudioCommand::Seek(
                if self.spec_current_frame() + relative_frame < 0 {
                    0
                } else {
                    (self.spec_current_frame() + relative_frame) as u32
                },
            ),
    {
        let new_frame = self.current_frame as i32 + relative_frame;
        let new_frame = if new_frame < 0 {
            0
        } else {
            new_frame
        };
        self.seek_to_frame(new_frame as u32)
    }
}

} // verus!
