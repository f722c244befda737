//! The global resources: the shared input snapshot, the clock, the game
//! phase and the network placeholder. The resource set of this game is fixed
//! and known, so the resources live as named fields of one struct rather
//! than behind a dynamic type-keyed registry.

use vstd::prelude::*;

use crate::constants::TARGET_FPS;
use crate::utils::Vec2;

verus! {

/// The input snapshot the platform layer writes before each tick: pointer
/// position, the three button states, where the pointer went down, a
/// one-frame click pulse, pressed keys (by key code) and touch state.
pub struct InputState {
    pub mouse_position: Vec2,
    pub left_button: bool,
    pub middle_button: bool,
    pub right_button: bool,
    pub mouse_down_position: Vec2,
    pub is_mouse_down: bool,
    pub is_mouse_clicked: bool,
    pub keys_pressed: Vec<(u32, bool)>,
    pub touch_position: Vec2,
    pub is_touch_active: bool,
}

/// The last recorded state of a key in the key list: later entries win.
pub open spec fn spec_key_state(keys: Seq<(u32, bool)>, key: u32) -> bool
    decreases keys.len(),
{
    if keys.len() == 0 {
        false
    } else if keys.last().0 == key {
        keys.last().1
    } else {
        spec_key_state(keys.drop_last(), key)
    }
}

impl InputState {
    pub fn new() -> (r: Self)
        ensures
            r.mouse_position == (Vec2 { x: 0i64, y: 0i64 }),
            !r.left_button && !r.middle_button && !r.right_button,
            !r.is_mouse_down && !r.is_mouse_clicked && !r.is_touch_active,
            r.keys_pressed@.len() == 0,
    {
        InputState {
            mouse_position: Vec2 { x: 0, y: 0 },
            left_button: false,
            middle_button: false,
            right_button: false,
            mouse_down_position: Vec2 { x: 0, y: 0 },
            is_mouse_down: false,
            is_mouse_clicked: false,
            keys_pressed: Vec::new(),
            touch_position: Vec2 { x: 0, y: 0 },
            is_touch_active: false,
        }
    }

    /// Moves the pointer.
    pub fn update_mouse_position(&mut self, x: i64, y: i64)
        ensures
            *final(self) == (InputState { mouse_position: Vec2 { x, y }, ..*old(self) }),
    {
        self.mouse_position = Vec2 { x, y };
    }

    /// Records a button state change: button 0 is the left button, 1 the
    /// middle, 2 the right; other numbers change nothing. A left press also
    /// records where the pointer went down.
    pub fn update_mouse_button(&mut self, button: usize, pressed: bool)
        ensures
            button == 0 ==> *final(self) == (InputState {
                left_button: pressed,
                is_mouse_down: pressed,
                mouse_down_position: if pressed {
                    old(self).mouse_position
                } else {
                    old(self).mouse_down_position
                },
                ..*old(self)
            }),
            button == 1 ==> *final(self) == (InputState {
                middle_button: pressed,
                ..*old(self)
            }),
            button == 2 ==> *final(self) == (InputState { right_button: pressed, ..*old(self) }),
            button > 2 ==> *final(self) == *old(self),
    {
        if button == 0 {
            self.left_button = pressed;
            self.is_mouse_down = pressed;
            if pressed {
                self.mouse_down_position = self.mouse_position;
            }
        } else if button == 1 {
            self.middle_button = pressed;
        } else if button == 2 {
            self.right_button = pressed;
        }
    }

    /// Records a key state change.
    pub fn update_key(&mut self, key: u32, pressed: bool)
        ensures
            final(self).keys_pressed@ === old(self).keys_pressed@.push((key, pressed)),
            spec_key_state(final(self).keys_pressed@, key) == pressed,
            forall|k: u32|
                k != key ==> spec_key_state(final(self).keys_pressed@, k) == spec_key_state(
                    old(self).keys_pressed@,
                    k,
                ),
            final(self).mouse_position == old(self).mouse_position,
            final(self).is_mouse_down == old(self).is_mouse_down,
            final(self).is_mouse_clicked == old(self).is_mouse_clicked,
    {
        self.keys_pressed.push((key, pressed));
        proof {
            assert(self.keys_pressed@.drop_last() =~= old(self).keys_pressed@);
        }
    }

    /// Whether the key is currently pressed.
    pub fn is_key_pressed(&self, key: u32) -> (r: bool)
        ensures
            r == spec_key_state(self.keys_pressed@, key),
    {
        let mut i: usize = self.keys_pressed.len();
        proof {
            assert(self.keys_pressed@.take(self.keys_pressed@.len() as int)
                =~= self.keys_pressed@);
        }
        while i > 0
            invariant
                i <= self.keys_pressed@.len(),
                spec_key_state(self.keys_pressed@, key) == spec_key_state(
                    self.keys_pressed@.take(i as int),
                    key,
                ),
            decreases i,
        {
            let (k, pressed) = self.keys_pressed[i - 1];
            proof {
                assert(self.keys_pressed@.take(i as int).last() == self.keys_pressed@[i - 1]);
                assert(self.keys_pressed@.take(i as int).drop_last() =~= self.keys_pressed@.take(
                    i - 1,
                ));
            }
            if k == key {
                return pressed;
            }
            i = i - 1;
        }
        proof {
            assert(self.keys_pressed@.take(0) =~= Seq::<(u32, bool)>::empty());
        }
        false
    }

    /// Records the touch state; touch mirrors into the pointer so one input
    /// path serves both.
    pub fn update_touch(&mut self, x: i64, y: i64, is_active: bool)
        ensures
            *final(self) == (InputState {
                touch_position: Vec2 { x, y },
                is_touch_active: is_active,
                mouse_position: Vec2 { x, y },
                is_mouse_down: is_active,
                mouse_down_position: if is_active {
                    Vec2 { x, y }
                } else {
                    old(self).mouse_down_position
                },
                ..*old(self)
            }),
    {
        self.touch_position = Vec2 { x, y };
        self.is_touch_active = is_active;
        self.mouse_position = Vec2 { x, y };
        self.is_mouse_down = is_active;
        if is_active {
            self.mouse_down_position = Vec2 { x, y };
        }
    }

    /// Whether the pointer lies in the axis-aligned box.
    pub fn is_mouse_in_rect(&self, x: i64, y: i64, width: i64, height: i64) -> (r: bool)
        requires
            i64::MIN <= x + width <= i64::MAX,
            i64::MIN <= y + height <= i64::MAX,
        ensures
            r == (self.mouse_position.x >= x && self.mouse_position.x <= x + width
                && self.mouse_position.y >= y && self.mouse_position.y <= y + height),
    {
        self.mouse_position.x >= x && self.mouse_position.x <= x + width && self.mouse_position.y
            >= y && self.mouse_position.y <= y + height
    }

    /// Clears the one-frame click pulse; runs at the end of every tick.
    pub fn reset_click_state(&mut self)
        ensures
            *final(self) == (InputState { is_mouse_clicked: false, ..*old(self) }),
    {
        self.is_mouse_clicked = false;
    }
}

/// Longest frame delta the clock will report, so a stall cannot cause a
/// runaway catch-up.
pub const MAX_DELTA_TIME_MS: u64 = 100;

/// The clock resource: elapsed play time, the last frame delta (clamped),
/// the frame counter and the target rate. All times are in milliseconds.
pub struct TimeInfo {
    pub total_time_ms: u64,
    pub delta_time_ms: u64,
    pub frame_count: u64,
    pub target_fps: u32,
    pub last_frame_time_ms: u64,
}

/// The delta the clock derives from a new timestamp: the time since the last
/// frame, or the target frame time when no frame was seen yet; either way
/// clamped to `MAX_DELTA_TIME_MS`, so a stall (or a very low target rate)
/// cannot cause a runaway catch-up. Zero if the timestamp ran backwards.
pub open spec fn spec_frame_delta(t: TimeInfo, current_time_ms: u64) -> u64 {
    let raw: int = if t.last_frame_time_ms > 0 {
        if current_time_ms < t.last_frame_time_ms {
            0
        } else {
            current_time_ms - t.last_frame_time_ms
        }
    } else if t.target_fps > 0 {
        1000int / t.target_fps as int
    } else {
        0
    };
    if raw > MAX_DELTA_TIME_MS {
        MAX_DELTA_TIME_MS
    } else {
        raw as u64
    }
}

impl TimeInfo {
    pub fn new(target_fps: u32) -> (r: Self)
        ensures
            r == (TimeInfo {
                total_time_ms: 0u64,
                delta_time_ms: 0u64,
                frame_count: 0u64,
                target_fps,
                last_frame_time_ms: 0u64,
            }),
    {
        TimeInfo {
            total_time_ms: 0,
            delta_time_ms: 0,
            frame_count: 0,
            target_fps,
            last_frame_time_ms: 0,
        }
    }

    /// Advances the clock to a new timestamp: the clamped delta is recorded
    /// and added to the total (saturating at the machine limit), and the
    /// frame counter grows by one (saturating likewise).
    pub fn update(&mut self, current_time_ms: u64)
        ensures
            final(self).delta_time_ms == spec_frame_delta(*old(self), current_time_ms),
            final(self).total_time_ms == if old(self).total_time_ms + spec_frame_delta(
                *old(self),
                current_time_ms,
            ) <= u64::MAX {
                old(self).total_time_ms + spec_frame_delta(*old(self), current_time_ms)
            } else {
                u64::MAX as int
            },
            final(self).frame_count == if old(self).frame_count < u64::MAX {
                old(self).frame_count + 1
            } else {
                u64::MAX as int
            },
            final(self).last_frame_time_ms == current_time_ms,
            final(self).target_fps == old(self).target_fps,
    {
        let raw: u64 = if self.last_frame_time_ms > 0 {
            if current_time_ms < self.last_frame_time_ms {
                0
            } else {
                current_time_ms - self.last_frame_time_ms
            }
        } else if self.target_fps > 0 {
            1000 / (self.target_fps as u64)
        } else {
            0
        };
        let delta: u64 = if raw > MAX_DELTA_TIME_MS {
            MAX_DELTA_TIME_MS
        } else {
            raw
        };
        self.delta_time_ms = delta;
        self.total_time_ms = self.total_time_ms.saturating_add(delta);
        self.last_frame_time_ms = current_time_ms;
        self.frame_count = self.frame_count.saturating_add(1);
    }
}

/// The phase the surrounding shell shows: title screen, play, pause, loss or
/// the cleared board.
#[derive(Clone, Copy, Debug, PartialEq, Eq, Structural)]
pub enum GameState {
    Title,
    Playing,
    Paused,
    GameOver,
    Clear,
}

/// The network placeholder resource: connection state and peers. The core
/// never acts on it; a network collaborator owns its meaning.
pub struct NetworkState {
    pub is_connected: bool,
    pub player_id: Option<String>,
    pub other_players: Vec<String>,
    pub connection_error: Option<String>,
    pub last_message_time_ms: u64,
}

impl NetworkState {
    pub fn new() -> (r: Self)
        ensures
            !r.is_connected,
            r.player_id is None,
            r.other_players@.len() == 0,
            r.connection_error is None,
            r.last_message_time_ms == 0,
    {
        NetworkState {
            is_connected: false,
            player_id: None,
            other_players: Vec::new(),
            connection_error: None,
            last_message_time_ms: 0,
        }
    }

    /// Records the connection state; a disconnect forgets the player and the
    /// peers.
    pub fn set_connected(&mut self, connected: bool)
        ensures
            final(self).is_connected == connected,
            !connected ==> final(self).player_id is None && final(self).other_players@.len() == 0,
            connected ==> final(self).player_id == old(self).player_id
                && final(self).other_players@ === old(self).other_players@,
            final(self).connection_error == old(self).connection_error,
            final(self).last_message_time_ms == old(self).last_message_time_ms,
    {
        self.is_connected = connected;
        if !connected {
            self.player_id = None;
            self.other_players = Vec::new();
        }
    }

    pub fn set_player_id(&mut self, id: String)
        ensures
            final(self).player_id == Some(id),
            final(self).is_connected == old(self).is_connected,
            final(self).other_players@ === old(self).other_players@,
    {
        self.player_id = Some(id);
    }

    pub fn set_error(&mut self, error: String)
        ensures
            final(self).connection_error == Some(error),
            final(self).is_connected == old(self).is_connected,
    {
        self.connection_error = Some(error);
    }

    pub fn clear_error(&mut self)
        ensures
            final(self).connection_error is None,
            final(self).is_connected == old(self).is_connected,
    {
        self.connection_error = None;
    }
}

/// All global resources of one game instance, as named fields.
pub struct Resources {
    pub input: InputState,
    pub time: TimeInfo,
    pub game_state: GameState,
    pub network: NetworkState,
}

impl Resources {
    /// The resources a fresh game starts with: no input yet, the clock at
    /// zero aimed at the target rate, the title screen, and no connection.
    pub fn new() -> (r: Self)
        ensures
            r.game_state == GameState::Title,
            r.time.target_fps == TARGET_FPS,
            r.time.total_time_ms == 0,
            !r.input.is_mouse_down,
            !r.input.is_mouse_clicked,
            !r.network.is_connected,
    {
        Resources {
            input: InputState::new(),
            time: TimeInfo::new(TARGET_FPS),
            game_state: GameState::Title,
            network: NetworkState::new(),
        }
    }
}

} // verus!
