//! Taking over the calendars, the folders of photos and the timings of the
//! PactoTech Calendar Saver.

use vstd::prelude::*;
use vstd::string::*;
use crate::cal_feeds::{default_color, feed_models, FeedCfg, FeedModel};
use crate::cast::text_or;
use crate::config::CalendarConfig;
use crate::json::{
    entry, entry_of, is_empty, is_json, json_bool, json_bool_at, json_has, json_holds, json_list, json_list_at,
    json_nat, json_nat_at, json_problem, json_problem_in, json_text, json_text_at,
};
use crate::text::{
    chars_of, decimal, decimal_text, same_ignoring_case, same_text_ignoring_case, str_same, string_of, texts, trim,
    trim_str,
};

verus! {

/// A place in a document. Names may begin with a small or a capital letter; the
/// first counts if both are there.
pub open spec fn place_of(doc: Seq<char>, at: Seq<char>, small: Seq<char>, capital: Seq<char>) -> Seq<char> {
    if json_holds(doc, at + small) {
        at + small
    } else {
        at + capital
    }
}

fn find_place(doc: &str, at: &str, small: &str, capital: &str) -> (r: String)
    ensures
        r@ == place_of(doc@, at@, small@, capital@),
{
    let p = at.to_string().concat(small);
    if json_has(doc, p.as_str()) {
        p
    } else {
        at.to_string().concat(capital)
    }
}

/// A text of a feed.
pub open spec fn feed_text(doc: Seq<char>, at: Seq<char>, small: Seq<char>, capital: Seq<char>) -> Seq<char> {
    text_or(json_text_at(doc, place_of(doc, at, small, capital)), ""@)
}

fn read_feed_text(doc: &str, at: &str, small: &str, capital: &str) -> (r: String)
    ensures
        r@ == feed_text(doc@, at@, small@, capital@),
{
    match json_text(doc, find_place(doc, at, small, capital).as_str()) {
        Some(t) => t,
        None => "".to_string(),
    }
}

/// A feed of the Calendar Saver.
pub open spec fn feed_at(doc: Seq<char>, at: Seq<char>) -> FeedModel {
    let color = feed_text(doc, at, "/color"@, "/Color"@);
    FeedModel {
        url: feed_text(doc, at, "/url"@, "/Url"@),
        name: feed_text(doc, at, "/name"@, "/Name"@),
        color: if color.len() == 0 {
            "#7aa2f7"@
        } else {
            color
        },
        enabled: json_bool_at(doc, place_of(doc, at, "/enabled"@, "/Enabled"@)) != Some(false),
    }
}

/// Whether a feed is there already.
pub open spec fn has_feed(feeds: Seq<FeedModel>, url: Seq<char>) -> bool {
    exists|i: int| 0 <= i < feeds.len() && trim((#[trigger] feeds[i]).url) == trim(url)
}

/// The feeds with the first `n` of the Calendar Saver: those with an address that
/// are not there already.
pub open spec fn feeds_with(feeds: Seq<FeedModel>, doc: Seq<char>, list: Seq<char>, n: int) -> Seq<FeedModel>
    decreases n,
{
    if n <= 0 {
        feeds
    } else {
        let before = feeds_with(feeds, doc, list, n - 1);
        let f = feed_at(doc, entry(list, n - 1));
        if f.url.len() == 0 || has_feed(before, f.url) {
            before
        } else {
            before.push(f)
        }
    }
}

/// The length of a list, none if there is no list.
pub open spec fn list_length(doc: Seq<char>, list: Seq<char>) -> int {
    match json_list_at(doc, list) {
        Some(n) => n as int,
        None => 0,
    }
}

fn read_length(doc: &str, list: &str) -> (r: usize)
    ensures
        r == list_length(doc@, list@),
{
    match json_list(doc, list) {
        Some(n) => n,
        None => 0,
    }
}

fn knows_feed(feeds: &Vec<FeedCfg>, url: &str) -> (r: bool)
    ensures
        r == has_feed(feed_models(feeds@), url@),
{
    let ghost m = feed_models(feeds@);
    let t = trim_str(url);
    let mut i: usize = 0;
    while i < feeds.len()
        invariant
            i <= feeds@.len(),
            m == feed_models(feeds@),
            t@ == trim(url@),
            forall|k: int| 0 <= k < i ==> trim((#[trigger] m[k]).url) != trim(url@),
        decreases feeds@.len() - i,
    {
        proof {
            assert(m[i as int] == feeds@[i as int]@);
        }
        let u = trim_str(feeds[i].url.as_str());
        if str_same(u.as_str(), t.as_str()) {
            proof {
                assert(trim(m[i as int].url) == trim(url@));
            }
            return true;
        }
        i = i + 1;
    }
    proof {
        assert(m.len() == feeds@.len());
    }
    false
}

fn read_feed(doc: &str, at: &str) -> (r: FeedCfg)
    ensures
        r@ == feed_at(doc@, at@),
{
    let color = read_feed_text(doc, at, "/color", "/Color");
    let enabled: bool = match json_bool(doc, find_place(doc, at, "/enabled", "/Enabled").as_str()) {
        Some(b) => b,
        None => true,
    };
    FeedCfg {
        url: read_feed_text(doc, at, "/url", "/Url"),
        name: read_feed_text(doc, at, "/name", "/Name"),
        color: if is_empty(color.as_str()) {
            default_color()
        } else {
            color
        },
        enabled,
    }
}

fn import_feeds(feeds: &mut Vec<FeedCfg>, doc: &str) -> (added: usize)
    ensures
        ({
            let list = place_of(doc@, ""@, "/feeds"@, "/Feeds"@);
            feed_models(final(feeds)@) == feeds_with(feed_models(old(feeds)@), doc@, list, list_length(doc@, list))
        }),
        added == final(feeds)@.len() - old(feeds)@.len(),
{
    let list = find_place(doc, "", "/feeds", "/Feeds");
    let n: usize = read_length(doc, list.as_str());
    let mut added: usize = 0;
    let mut i: usize = 0;
    while i < n
        invariant
            i <= n,
            feed_models(feeds@) == feeds_with(feed_models(old(feeds)@), doc@, list@, i as int),
            added == feeds@.len() - old(feeds)@.len(),
            added <= i,
        decreases n - i,
    {
        let e = entry_of(list.as_str(), i);
        let f = read_feed(doc, e.as_str());
        if !is_empty(f.url.as_str()) && !knows_feed(feeds, f.url.as_str()) {
            let ghost before = feed_models(feeds@);
            let ghost fm = f@;
            feeds.push(f);
            proof {
                assert(feed_models(feeds@) =~= before.push(fm));
            }
            added = added + 1;
        }
        i = i + 1;
    }
    added
}

/// Whether a folder is there already, in letters of any size.
pub open spec fn has_folder(folders: Seq<Seq<char>>, p: Seq<char>) -> bool {
    exists|i: int| 0 <= i < folders.len() && same_ignoring_case(#[trigger] folders[i], p)
}

/// The folders with the first `n` of the Calendar Saver that are not there already.
pub open spec fn folders_with(folders: Seq<Seq<char>>, doc: Seq<char>, list: Seq<char>, n: int) -> Seq<Seq<char>>
    decreases n,
{
    if n <= 0 {
        folders
    } else {
        let before = folders_with(folders, doc, list, n - 1);
        match json_text_at(doc, entry(list, n - 1)) {
            Some(p) => if has_folder(before, p) {
                before
            } else {
                before.push(p)
            },
            None => before,
        }
    }
}

fn knows_folder(folders: &Vec<String>, p: &str) -> (r: bool)
    ensures
        r == has_folder(texts(folders@), p@),
{
    let ghost m = texts(folders@);
    let c = chars_of(p);
    let mut i: usize = 0;
    while i < folders.len()
        invariant
            i <= folders@.len(),
            m == texts(folders@),
            c@ == p@,
            forall|k: int| 0 <= k < i ==> !same_ignoring_case(#[trigger] m[k], p@),
        decreases folders@.len() - i,
    {
        proof {
            assert(m[i as int] == folders@[i as int]@);
        }
        let f = chars_of(folders[i].as_str());
        if same_text_ignoring_case(f.as_slice(), c.as_slice()) {
            proof {
                assert(same_ignoring_case(m[i as int], p@));
            }
            return true;
        }
        i = i + 1;
    }
    proof {
        assert(m.len() == folders@.len());
    }
    false
}

fn import_folders(folders: &mut Vec<String>, doc: &str) -> (added: usize)
    ensures
        ({
            let list = place_of(doc@, ""@, "/photoFolders"@, "/PhotoFolders"@);
            texts(final(folders)@) == folders_with(texts(old(folders)@), doc@, list, list_length(doc@, list))
        }),
        added == final(folders)@.len() - old(folders)@.len(),
{
    let list = find_place(doc, "", "/photoFolders", "/PhotoFolders");
    let n: usize = read_length(doc, list.as_str());
    let mut added: usize = 0;
    let mut i: usize = 0;
    while i < n
        invariant
            i <= n,
            texts(folders@) == folders_with(texts(old(folders)@), doc@, list@, i as int),
            added == folders@.len() - old(folders)@.len(),
            added <= i,
        decreases n - i,
    {
        let e = entry_of(list.as_str(), i);
        match json_text(doc, e.as_str()) {
            Some(p) => {
                if !knows_folder(folders, p.as_str()) {
                    let ghost before = texts(folders@);
                    let ghost pm = p@;
                    folders.push(p);
                    proof {
                        assert(texts(folders@) =~= before.push(pm));
                    }
                    added = added + 1;
                }
            },
            None => {},
        }
        i = i + 1;
    }
    added
}

/// A number of the Calendar Saver within bounds, or the one that was there. Of a
/// number beyond 32 bits the lower ones count.
pub open spec fn timing(doc: Seq<char>, place: Seq<char>, low: int, high: int, old: u32) -> int {
    match json_nat_at(doc, place) {
        Some(n) => {
            let m = n as int % 0x1_0000_0000;
            if m < low {
                low
            } else if m > high {
                high
            } else {
                m
            }
        },
        None => old as int,
    }
}

fn read_timing(doc: &str, place: &str, low: u32, high: u32, old: u32) -> (r: u32)
    requires
        low <= high,
    ensures
        r == timing(doc@, place@, low as int, high as int, old),
{
    match json_nat(doc, place) {
        Some(n) => {
            let m: u32 = (n % 0x1_0000_0000) as u32;
            if m < low {
                low
            } else if m > high {
                high
            } else {
                m
            }
        },
        None => old,
    }
}

pub open spec fn plural(n: int) -> Seq<char> {
    if n == 1 {
        ""@
    } else {
        "s"@
    }
}

fn plural_end(n: usize) -> (r: &'static str)
    ensures
        r@ == plural(n as int),
{
    if n == 1 {
        ""
    } else {
        "s"
    }
}

/// What is said after so many calendars and folders were taken over.
pub open spec fn copied_text(feeds: int, folders: int) -> Seq<char> {
    "Copied "@ + decimal(feeds) + " calendar"@ + plural(feeds) + " and "@ + decimal(folders) + " photo folder"@ + plural(
        folders,
    ) + " from the Calendar Saver."@
}

/// Takes over the settings in a document of the Calendar Saver. One that cannot be
/// read changes nothing.
pub fn import_saver(c: &mut CalendarConfig, doc: &str) -> (r: Result<String, String>)
    ensures
        match r {
            Err(e) => *final(c) == *old(c) && !is_json(doc@) && e@ == "Couldn't read the Calendar Saver's settings: "@
                + json_problem_in(doc@)->0,
            Ok(t) => {
                let feeds = place_of(doc@, ""@, "/feeds"@, "/Feeds"@);
                let folders = place_of(doc@, ""@, "/photoFolders"@, "/PhotoFolders"@);
                &&& is_json(doc@)
                &&& feed_models(final(c).feeds@) == feeds_with(
                    feed_models(old(c).feeds@),
                    doc@,
                    feeds,
                    list_length(doc@, feeds),
                )
                &&& texts(final(c).photo_folders@) == folders_with(
                    texts(old(c).photo_folders@),
                    doc@,
                    folders,
                    list_length(doc@, folders),
                )
                &&& final(c).photo_interval_secs == timing(
                    doc@,
                    place_of(doc@, ""@, "/photoIntervalSeconds"@, "/PhotoIntervalSeconds"@),
                    5,
                    3600,
                    old(c).photo_interval_secs,
                )
                &&& final(c).refresh_minutes == timing(
                    doc@,
                    place_of(doc@, ""@, "/refreshMinutes"@, "/RefreshMinutes"@),
                    1,
                    1440,
                    old(c).refresh_minutes,
                )
                &&& final(c).saver_imported
                &&& *final(c) == (CalendarConfig {
                    feeds: final(c).feeds,
                    photo_folders: final(c).photo_folders,
                    photo_interval_secs: final(c).photo_interval_secs,
                    refresh_minutes: final(c).refresh_minutes,
                    saver_imported: true,
                    ..*old(c)
                })
                &&& t@ == copied_text(
                    final(c).feeds@.len() - old(c).feeds@.len(),
                    final(c).photo_folders@.len() - old(c).photo_folders@.len(),
                )
            },
        },
{
    match json_problem(doc) {
        Some(e) => {
            return Err("Couldn't read the Calendar Saver's settings: ".to_string().concat(e.as_str()));
        },
        None => {},
    }
    let feeds: usize = import_feeds(&mut c.feeds, doc);
    let folders: usize = import_folders(&mut c.photo_folders, doc);
    let a = find_place(doc, "", "/photoIntervalSeconds", "/PhotoIntervalSeconds");
    c.photo_interval_secs = read_timing(doc, a.as_str(), 5, 3600, c.photo_interval_secs);
    let b = find_place(doc, "", "/refreshMinutes", "/RefreshMinutes");
    c.refresh_minutes = read_timing(doc, b.as_str(), 1, 1440, c.refresh_minutes);
    c.saver_imported = true;
    let n = string_of(decimal_text(feeds as u64).as_slice());
    let m = string_of(decimal_text(folders as u64).as_slice());
    Ok(
        "Copied ".to_string().concat(n.as_str()).concat(" calendar").concat(plural_end(feeds)).concat(" and ").concat(
            m.as_str(),
        ).concat(" photo folder").concat(plural_end(folders)).concat(" from the Calendar Saver."),
    )
}

/// Whether the settings of the Calendar Saver are taken over by themselves: at the
/// first start, where there are no calendars yet.
pub fn should_import(c: &CalendarConfig, found: bool) -> (r: bool)
    ensures
        r == (c.feeds@.len() == 0 && !c.saver_imported && found),
{
    c.feeds.len() == 0 && !c.saver_imported && found
}

/// Taking over the same settings twice adds nothing the second time.
pub proof fn law_import_twice(feeds: Seq<FeedModel>, doc: Seq<char>, list: Seq<char>, n: int)
    requires
        n >= 0,
    ensures
        feeds_with(feeds_with(feeds, doc, list, n), doc, list, n) == feeds_with(feeds, doc, list, n),
{
    let all = feeds_with(feeds, doc, list, n);
    lemma_nothing_new(feeds, doc, list, n, n);
}

proof fn lemma_grows(feeds: Seq<FeedModel>, doc: Seq<char>, list: Seq<char>, k: int, n: int, url: Seq<char>)
    requires
        0 <= k <= n,
        has_feed(feeds_with(feeds, doc, list, k), url),
    ensures
        has_feed(feeds_with(feeds, doc, list, n), url),
    decreases n - k,
{
    if k < n {
        lemma_grows(feeds, doc, list, k, n - 1, url);
        let before = feeds_with(feeds, doc, list, n - 1);
        let i = choose|i: int| 0 <= i < before.len() && trim((#[trigger] before[i]).url) == trim(url);
        assert(feeds_with(feeds, doc, list, n)[i] == before[i]);
    }
}

proof fn lemma_nothing_new(feeds: Seq<FeedModel>, doc: Seq<char>, list: Seq<char>, n: int, k: int)
    requires
        0 <= k <= n,
    ensures
        feeds_with(feeds_with(feeds, doc, list, n), doc, list, k) == feeds_with(feeds, doc, list, n),
    decreases k,
{
    if k > 0 {
        lemma_nothing_new(feeds, doc, list, n, k - 1);
        let f = feed_at(doc, entry(list, k - 1));
        if f.url.len() > 0 {
            let here = feeds_with(feeds, doc, list, k);
            assert(has_feed(here, f.url)) by {
                let before = feeds_with(feeds, doc, list, k - 1);
                if !has_feed(before, f.url) {
                    assert(here[before.len() as int] == f);
                }
            }
            lemma_grows(feeds, doc, list, k, n, f.url);
        }
    }
}

proof fn lemma_feeds_kept(feeds: Seq<FeedModel>, doc: Seq<char>, list: Seq<char>, n: int)
    requires
        0 <= n,
    ensures
        feeds_with(feeds, doc, list, n).len() >= feeds.len(),
        feeds_with(feeds, doc, list, n).take(feeds.len() as int) == feeds,
    decreases n,
{
    if n > 0 {
        lemma_feeds_kept(feeds, doc, list, n - 1);
        let before = feeds_with(feeds, doc, list, n - 1);
        let all = feeds_with(feeds, doc, list, n);
        assert forall|i: int| 0 <= i < feeds.len() implies all[i] == feeds[i] by {
            assert(before.take(feeds.len() as int)[i] == feeds[i]);
        }
        assert(all.take(feeds.len() as int) =~= feeds);
    } else {
        assert(feeds.take(feeds.len() as int) =~= feeds);
    }
}

proof fn lemma_feed_there(feeds: Seq<FeedModel>, doc: Seq<char>, list: Seq<char>, n: int, i: int)
    requires
        0 <= i < n,
        feed_at(doc, entry(list, i)).url.len() > 0,
    ensures
        has_feed(feeds_with(feeds, doc, list, n), feed_at(doc, entry(list, i)).url),
    decreases n,
{
    let before = feeds_with(feeds, doc, list, n - 1);
    let all = feeds_with(feeds, doc, list, n);
    let url = feed_at(doc, entry(list, i)).url;
    if i < n - 1 {
        lemma_feed_there(feeds, doc, list, n - 1, i);
        let k = choose|k: int| 0 <= k < before.len() && trim((#[trigger] before[k]).url) == trim(url);
        assert(all[k] == before[k]);
    } else if !has_feed(before, url) {
        assert(all[before.len() as int].url == url);
    }
}

/// What is taken over comes behind what is there already, which stays as it is; afterwards every
/// calendar with an address is there.
pub proof fn law_calendars_are_added(feeds: Seq<FeedModel>, doc: Seq<char>, list: Seq<char>, n: int, i: int)
    requires
        0 <= i < n,
    ensures
        feeds_with(feeds, doc, list, n).take(feeds.len() as int) == feeds,
        feed_at(doc, entry(list, i)).url.len() > 0 ==> has_feed(
            feeds_with(feeds, doc, list, n),
            feed_at(doc, entry(list, i)).url,
        ),
{
    lemma_feeds_kept(feeds, doc, list, n);
    if feed_at(doc, entry(list, i)).url.len() > 0 {
        lemma_feed_there(feeds, doc, list, n, i);
    }
}

/// A number of seconds or minutes is taken over as it is within its bounds, and else as the
/// nearer of them; without one the old stays.
pub proof fn law_numbers_within_bounds(doc: Seq<char>, place: Seq<char>, low: int, high: int, old: u32)
    requires
        low <= high,
    ensures
        json_nat_at(doc, place) matches Some(n) && low <= n <= high && n <= u32::MAX ==> timing(doc, place, low, high, old)
            == json_nat_at(doc, place)->0,
        json_nat_at(doc, place) matches Some(n) && n < low && n <= u32::MAX ==> timing(doc, place, low, high, old) == low,
        json_nat_at(doc, place) matches Some(n) && n > high && n <= u32::MAX ==> timing(doc, place, low, high, old)
            == high,
        json_nat_at(doc, place) is None ==> timing(doc, place, low, high, old) == old,
{
}

/// A calendar that does not say so is switched on, and one without a color has the usual one.
pub proof fn law_what_a_calendar_leaves_out(doc: Seq<char>, at: Seq<char>)
    ensures
        json_bool_at(doc, place_of(doc, at, "/enabled"@, "/Enabled"@)) is None ==> feed_at(doc, at).enabled,
        json_bool_at(doc, place_of(doc, at, "/enabled"@, "/Enabled"@)) matches Some(b) ==> feed_at(doc, at).enabled == b,
        feed_text(doc, at, "/color"@, "/Color"@).len() == 0 ==> feed_at(doc, at).color == "#7aa2f7"@,
        json_holds(doc, at + "/url"@) ==> feed_at(doc, at).url == text_or(json_text_at(doc, at + "/url"@), ""@),
{
}

} // verus!
