//! What is kept between two runs of the program.

use vstd::prelude::*;
use crate::cal_feeds::{is_file_in, join_path, FeedCfg};
use crate::types::{AppGroup, Backend, ScheduleEvent};

verus! {

#[derive(Clone, Copy, Debug, PartialEq, Eq, Structural)]
pub struct Settings {
    pub start_with_windows: bool,
    pub auto_update: bool,
}

impl Default for Settings {
    fn default() -> (r: Settings)
        ensures
            r.start_with_windows,
            !r.auto_update,
    {
        Settings { start_with_windows: true, auto_update: false }
    }
}

/// A device that was added by its address.
#[derive(Debug)]
pub struct ManualDevice {
    pub backend: Backend,
    pub ip: String,
    pub port: u16,
    pub name: String,
    /// The network addresses by which it is woken.
    pub macs: Vec<String>,
}

/// The calendar on some screens at a time of certain weekdays.
#[derive(Debug)]
pub struct CalSchedule {
    pub id: String,
    pub enabled: bool,
    /// Monday to Sunday.
    pub days: [bool; 7],
    /// Hours and minutes with a colon between them.
    pub start: String,
    pub duration_min: u32,
    pub devices: Vec<String>,
    /// `light`, `dark` or `default`.
    pub theme: String,
    pub views: Vec<String>,
    pub rotate_secs: u32,
    /// Turn a TV on if it is off.
    pub power_on: bool,
    /// Leave a TV alone while it plays something.
    pub dont_interrupt: bool,
    /// Turn the TV off when the time is up.
    pub off_after: bool,
    /// Turn it off earlier after so many minutes without a key press (0: never).
    pub idle_off_min: u32,
}

/// How a screen shows the calendar.
#[derive(Debug)]
pub struct DisplaySettings {
    /// `light`, `dark`, or anything else for that of all screens.
    pub theme: String,
    /// The size of the text in per cent.
    pub text_pct: u32,
    pub photos: bool,
    pub views: Vec<String>,
    /// Seconds between views (0: stay on the first).
    pub rotate_secs: u32,
}

/// How screens show the calendar that nothing was chosen for.
#[derive(Debug)]
pub struct DisplayDefaults {
    /// Small displays need large text.
    pub small: DisplaySettings,
    pub large: DisplaySettings,
}

/// The calendar on TVs.
#[derive(Debug)]
pub struct CalendarConfig {
    /// The secret part of the pictures' address.
    pub token: String,
    /// The TVs whose screensaver is the calendar.
    pub screensaver_tvs: Vec<String>,
    /// What each of those TVs was told, by device.
    pub pushed: Vec<(String, String)>,
    /// `dark` or `light`.
    pub theme: String,
    /// `month`, `week` and `day`.
    pub views: Vec<String>,
    /// Seconds between views (0: stay on the first).
    pub rotate_secs: u32,
    pub four_k: bool,
    /// What was chosen for screens, by device.
    pub displays: Vec<(String, DisplaySettings)>,
    pub feeds: Vec<FeedCfg>,
    pub photo_folders: Vec<String>,
    pub photo_interval_secs: u32,
    pub refresh_minutes: u32,
    pub schedules: Vec<CalSchedule>,
    pub saver_imported: bool,
}

impl Default for CalendarConfig {
    fn default() -> (r: CalendarConfig)
        ensures
            r.token@.len() == 0,
            r.screensaver_tvs@.len() == 0,
            r.pushed@.len() == 0,
            r.theme@ == "dark"@,
            r.views@.len() == 1,
            r.views@[0]@ == "month"@,
            r.rotate_secs == 0,
            !r.four_k,
            r.displays@.len() == 0,
            r.feeds@.len() == 0,
            r.photo_folders@.len() == 0,
            r.photo_interval_secs == 20,
            r.refresh_minutes == 15,
            r.schedules@.len() == 0,
            !r.saver_imported,
    {
        let mut views: Vec<String> = Vec::new();
        views.push("month".to_string());
        CalendarConfig {
            token: String::new(),
            screensaver_tvs: Vec::new(),
            pushed: Vec::new(),
            theme: "dark".to_string(),
            views,
            rotate_secs: 0,
            four_k: false,
            displays: Vec::new(),
            feeds: Vec::new(),
            photo_folders: Vec::new(),
            photo_interval_secs: 20,
            refresh_minutes: 15,
            schedules: Vec::new(),
            saver_imported: false,
        }
    }
}

/// Everything that is kept.
#[derive(Debug)]
pub struct AppConfig {
    pub settings: Settings,
    pub groups: Vec<AppGroup>,
    pub schedules: Vec<ScheduleEvent>,
    pub manual_devices: Vec<ManualDevice>,
    /// The last known level of each Roku, in per cent.
    pub roku_levels: Vec<(String, u8)>,
    pub roku_dev_passwords: Vec<(String, String)>,
    pub lg_keys: Vec<(String, String)>,
    pub calendar: CalendarConfig,
}

impl Default for AppConfig {
    fn default() -> (r: AppConfig)
        ensures
            r.settings.start_with_windows,
            !r.settings.auto_update,
            r.groups@.len() == 0,
            r.schedules@.len() == 0,
            r.manual_devices@.len() == 0,
            r.roku_levels@.len() == 0,
            r.roku_dev_passwords@.len() == 0,
            r.lg_keys@.len() == 0,
            r.calendar.theme@ == "dark"@,
            r.calendar.refresh_minutes == 15,
            r.calendar.schedules@.len() == 0,
    {
        AppConfig {
            settings: Settings::default(),
            groups: Vec::new(),
            schedules: Vec::new(),
            manual_devices: Vec::new(),
            roku_levels: Vec::new(),
            roku_dev_passwords: Vec::new(),
            lg_keys: Vec::new(),
            calendar: CalendarConfig::default(),
        }
    }
}

/// The directory of the program under the machine's directory for settings, and
/// the one it was in under its former name.
pub fn config_dirs(base: &str) -> (r: (String, String))
    ensures
        is_file_in(r.0@, base@, "GoogleHomeVolumeSync"@),
        is_file_in(r.1@, base@, "PactoCastSync"@),
{
    proof {
        reveal_strlit("GoogleHomeVolumeSync");
        reveal_strlit("PactoCastSync");
        reveal_strlit(".");
        reveal_strlit("..");
        assert("GoogleHomeVolumeSync"@.len() == 20 && "PactoCastSync"@.len() == 13);
        assert("."@.len() == 1 && ".."@.len() == 2);
    }
    (join_path(base, "GoogleHomeVolumeSync"), join_path(base, "PactoCastSync"))
}

/// The file that everything is kept in.
pub fn config_path(dir: &str) -> (r: String)
    ensures
        is_file_in(r@, dir@, "config.json"@),
{
    proof {
        reveal_strlit("config.json");
        reveal_strlit(".");
        reveal_strlit("..");
    }
    join_path(dir, "config.json")
}

// ---------------------------------------------------------------------------
// Values by name
// ---------------------------------------------------------------------------

/// The position of the first entry with a key, from the i-th on.
pub open spec fn key_from<T>(list: Seq<(String, T)>, key: Seq<char>, i: int) -> Option<int>
    decreases list.len() - i,
{
    if i >= list.len() {
        None
    } else if list[i].0@ == key {
        Some(i)
    } else {
        key_from(list, key, i + 1)
    }
}

/// The value under a key.
pub open spec fn value_of<T>(list: Seq<(String, T)>, key: Seq<char>) -> Option<T> {
    match key_from(list, key, 0) {
        Some(i) => Some(list[i].1),
        None => None,
    }
}

/// All values by their keys.
pub open spec fn as_map<T>(list: Seq<(String, T)>) -> Map<Seq<char>, T> {
    Map::new(|k: Seq<char>| value_of(list, k) is Some, |k: Seq<char>| value_of(list, k)->0)
}

/// Each key is there once.
pub open spec fn keys_differ<T>(list: Seq<(String, T)>) -> bool {
    forall|i: int, j: int| 0 <= i < j < list.len() ==> (#[trigger] list[i]).0@ != (#[trigger] list[j]).0@
}

/// Where each key is there once, each value is found under its key.
pub proof fn lemma_each_found<T>(list: Seq<(String, T)>)
    requires
        keys_differ(list),
    ensures
        forall|j: int| 0 <= j < list.len() ==> value_of(list, (#[trigger] list[j]).0@) == Some(list[j].1),
{
    assert forall|j: int| 0 <= j < list.len() implies value_of(list, (#[trigger] list[j]).0@) == Some(list[j].1) by {
        lemma_key_from(list, list[j].0@, 0);
    }
}

/// Taking away an entry leaves what is under the other keys.
pub proof fn lemma_without<T>(a: Seq<(String, T)>, at: int)
    requires
        keys_differ(a),
        0 <= at < a.len(),
    ensures
        keys_differ(a.remove(at)),
        as_map(a.remove(at)) == as_map(a).remove(a[at].0@),
{
    let b = a.remove(at);
    assert forall|i: int, j: int| 0 <= i < j < b.len() implies (#[trigger] b[i]).0@ != (#[trigger] b[j]).0@ by {
        let x = if i < at {
            i
        } else {
            i + 1
        };
        let y = if j < at {
            j
        } else {
            j + 1
        };
        assert(b[i] == a[x] && b[j] == a[y]);
    }
    assert forall|t: Seq<char>| t != a[at].0@ implies #[trigger] value_of(b, t) == value_of(a, t) by {
        lemma_removed_key(a, b, at, t, 0);
    }
    lemma_key_from(b, a[at].0@, 0);
    match key_from(b, a[at].0@, 0) {
        Some(n) => {
            let x = if n < at {
                n
            } else {
                n + 1
            };
            assert(b[n] == a[x]);
            if x < at {
                assert(a[x].0@ != a[at].0@);
            } else {
                assert(a[at].0@ != a[x].0@);
            }
        },
        None => {},
    }
    assert(as_map(b) =~= as_map(a).remove(a[at].0@));
}

pub proof fn lemma_key_from<T>(list: Seq<(String, T)>, key: Seq<char>, i: int)
    requires
        0 <= i,
    ensures
        key_from(list, key, i) matches Some(k) ==> i <= k < list.len() && list[k].0@ == key,
        key_from(list, key, i) is None ==> forall|k: int| i <= k < list.len() ==> (#[trigger] list[k]).0@ != key,
        key_from(list, key, i) matches Some(k) ==> forall|j: int| i <= j < k ==> (#[trigger] list[j]).0@ != key,
    decreases list.len() - i,
{
    if i < list.len() && list[i].0@ != key {
        lemma_key_from(list, key, i + 1);
    }
}

pub fn find_key<T>(list: &Vec<(String, T)>, key: &str) -> (r: Option<usize>)
    ensures
        match r {
            Some(i) => key_from(list@, key@, 0) == Some(i as int) && i < list@.len(),
            None => key_from(list@, key@, 0) is None,
        },
{
    let mut i: usize = 0;
    while i < list.len()
        invariant
            i <= list.len(),
            key_from(list@, key@, 0) == key_from(list@, key@, i as int),
        decreases list.len() - i,
    {
        if crate::text::str_same(list[i].0.as_str(), key) {
            return Some(i);
        }
        i = i + 1;
    }
    None
}

/// Puts a value under a key, in place of what was there.
pub fn put_value<T>(list: &mut Vec<(String, T)>, key: &str, value: T)
    ensures
        value_of(final(list)@, key@) == Some(value),
        forall|k: Seq<char>| k != key@ ==> #[trigger] value_of(final(list)@, k) == value_of(old(list)@, k),
        as_map(final(list)@) == as_map(old(list)@).insert(key@, value),
        keys_differ(old(list)@) ==> keys_differ(final(list)@),
{
    let ghost l0 = list@;
    let at = find_key(list, key);
    proof {
        lemma_key_from(l0, key@, 0);
    }
    match at {
        Some(i) => {
            let name = key.to_string();
            list.set(i, (name, value));
            proof {
                lemma_key_from(list@, key@, 0);
                assert(list@[i as int].0@ == key@);
                assert forall|k: Seq<char>| k != key@ implies #[trigger] value_of(list@, k) == value_of(l0, k) by {
                    lemma_same_keys(l0, list@, i as int, k, 0);
                }
            }
        },
        None => {
            let name = key.to_string();
            list.push((name, value));
            proof {
                lemma_key_from(list@, key@, 0);
                assert(list@[l0.len() as int].0@ == key@);
                assert forall|k: Seq<char>| k != key@ implies #[trigger] value_of(list@, k) == value_of(l0, k) by {
                    lemma_appended_key(l0, list@, k, 0);
                }
            }
        },
    }
    proof {
        assert(as_map(list@) =~= as_map(l0).insert(key@, value));
        if keys_differ(l0) {
            assert forall|i: int, j: int| 0 <= i < j < list@.len() implies (#[trigger] list@[i]).0@ != (
            #[trigger] list@[j]).0@ by {
                if j < l0.len() {
                    assert(l0[i].0@ != l0[j].0@);
                }
            }
        }
    }
}

proof fn lemma_same_keys<T>(a: Seq<(String, T)>, b: Seq<(String, T)>, at: int, k: Seq<char>, i: int)
    requires
        0 <= i,
        a.len() == b.len(),
        0 <= at < a.len(),
        a[at].0@ != k,
        b[at].0@ != k,
        forall|j: int| 0 <= j < a.len() && j != at ==> a[j] == b[j],
    ensures
        key_from(a, k, i) == key_from(b, k, i),
        key_from(a, k, i) matches Some(j) ==> a[j] == b[j],
    decreases a.len() - i,
{
    if i < a.len() {
        lemma_same_keys(a, b, at, k, i + 1);
    }
}

proof fn lemma_appended_key<T>(a: Seq<(String, T)>, b: Seq<(String, T)>, k: Seq<char>, i: int)
    requires
        0 <= i <= a.len(),
        b.len() == a.len() + 1,
        b[a.len() as int].0@ != k,
        forall|j: int| 0 <= j < a.len() ==> a[j] == b[j],
    ensures
        key_from(a, k, i) == key_from(b, k, i),
        key_from(a, k, i) matches Some(j) ==> a[j] == b[j],
    decreases a.len() - i,
{
    reveal_with_fuel(key_from, 3);
    if i < a.len() {
        lemma_appended_key(a, b, k, i + 1);
    }
}

/// Takes away what is under a key.
pub fn remove_key<T>(list: &mut Vec<(String, T)>, key: &str)
    ensures
        value_of(final(list)@, key@) is None,
        forall|k: Seq<char>| k != key@ ==> #[trigger] value_of(final(list)@, k) == value_of(old(list)@, k),
        as_map(final(list)@) == as_map(old(list)@).remove(key@),
        keys_differ(old(list)@) ==> keys_differ(final(list)@),
        value_of(old(list)@, key@) is Some ==> final(list)@.len() < old(list)@.len(),
{
    let mut i: usize = 0;
    while i < list.len()
        invariant
            i <= list.len(),
            forall|j: int| 0 <= j < i ==> (#[trigger] list@[j]).0@ != key@,
            forall|k: Seq<char>| k != key@ ==> #[trigger] value_of(list@, k) == value_of(old(list)@, k),
            keys_differ(old(list)@) ==> keys_differ(list@),
            list@.len() <= old(list)@.len(),
            list@.len() == old(list)@.len() ==> list@ == old(list)@,
        decreases list.len() - i,
    {
        if crate::text::str_same(list[i].0.as_str(), key) {
            let ghost before = list@;
            let _gone = list.remove(i);
            proof {
                if keys_differ(before) {
                    lemma_without(before, i as int);
                }
                assert forall|k: Seq<char>| k != key@ implies #[trigger] value_of(list@, k) == value_of(
                    old(list)@,
                    k,
                ) by {
                    assert(value_of(before, k) == value_of(old(list)@, k));
                    lemma_removed_key(before, list@, i as int, k, 0);
                }
            }
        } else {
            i = i + 1;
        }
    }
    proof {
        lemma_key_from(list@, key@, 0);
        assert(as_map(list@) =~= as_map(old(list)@).remove(key@));
    }
}

proof fn lemma_removed_key<T>(a: Seq<(String, T)>, b: Seq<(String, T)>, at: int, k: Seq<char>, i: int)
    requires
        0 <= i <= at < a.len(),
        b == a.remove(at),
        a[at].0@ != k,
    ensures
        value_after(a, k, i) == value_after(b, k, i),
    decreases at - i,
{
    if i < at {
        assert(a[i] == b[i]);
        lemma_removed_key(a, b, at, k, i + 1);
    } else {
        lemma_shifted_key(a, b, at, k, at + 1);
    }
}

spec fn value_after<T>(list: Seq<(String, T)>, key: Seq<char>, i: int) -> Option<T> {
    match key_from(list, key, i) {
        Some(j) => Some(list[j].1),
        None => None,
    }
}

proof fn lemma_shifted_key<T>(a: Seq<(String, T)>, b: Seq<(String, T)>, at: int, k: Seq<char>, i: int)
    requires
        0 <= at < i <= a.len(),
        b == a.remove(at),
    ensures
        value_after(a, k, i) == value_after(b, k, i - 1),
    decreases a.len() - i,
{
    if i < a.len() {
        assert(a[i] == b[i - 1]);
        lemma_shifted_key(a, b, at, k, i + 1);
    }
}

} // verus!
