//! What a scan is asked to do: how old a file must be, where to look, and
//! whether the smart filter is on.

use vstd::prelude::*;
use crate::classifier::SECONDS_PER_DAY;
use crate::text::{chars_of, string_from_chars, strings_view};

verus! {

/// The largest threshold, in days, whose seconds can still be counted.
pub const MAX_TIME_LIMIT_DAYS: u64 = 213_503_982_334_601;

/// The threshold that a new configuration starts with, in days.
pub const DEFAULT_TIME_LIMIT_DAYS: u64 = 14;

/// The configuration of a scan.
pub struct ScanConfiguration {
    /// A file is reported when it was not accessed for more than this many
    /// days.
    pub time_limit_days: u64,
    pub downloads_enabled: bool,
    pub documents_enabled: bool,
    pub desktop_enabled: bool,
    /// Further directories to search, in the order in which they were added.
    pub custom_directories: Vec<String>,
    pub smart_filter_enabled: bool,
}

/// Why a change to the configuration was refused.
#[derive(Clone, Copy, Debug, PartialEq, Eq, Structural)]
pub enum ConfigError {
    /// The threshold is zero, or too large to be counted in seconds.
    TimeLimitOutOfRange,
    /// The path of a directory is empty.
    EmptyDirectory,
    /// No directory stands at the position.
    NoSuchDirectory,
}

/// `list` without its repetitions: of equal entries the first stays, and the
/// order is kept.
pub open spec fn without_repeats(list: Seq<Seq<char>>) -> Seq<Seq<char>>
    decreases list.len(),
{
    if list.len() == 0 {
        list
    } else {
        let before = without_repeats(list.drop_last());
        if before.contains(list.last()) {
            before
        } else {
            before.push(list.last())
        }
    }
}

/// Dropping the repetitions keeps every entry, keeps none twice, and keeps
/// the order of the first occurrences.
pub proof fn lemma_without_repeats(list: Seq<Seq<char>>)
    ensures
        forall|x: Seq<char>| without_repeats(list).contains(x) <==> list.contains(x),
        without_repeats(list).no_duplicates(),
        without_repeats(list).len() <= list.len(),
    decreases list.len(),
{
    let kept = without_repeats(list);
    if list.len() > 0 {
        let front = list.drop_last();
        let before = without_repeats(front);
        lemma_without_repeats(front);
        assert forall|x: Seq<char>| kept.contains(x) <==> list.contains(x) by {
            if kept.contains(x) {
                let i = choose|i: int| 0 <= i < kept.len() && kept[i] == x;
                if i < before.len() {
                    assert(before[i] == x);
                    assert(before.contains(x));
                    assert(front.contains(x));
                    let j = choose|j: int| 0 <= j < front.len() && front[j] == x;
                    assert(list[j] == x);
                } else {
                    assert(list[list.len() - 1] == x);
                }
            }
            if list.contains(x) {
                let j = choose|j: int| 0 <= j < list.len() && list[j] == x;
                if j < front.len() {
                    assert(front[j] == x);
                    assert(front.contains(x));
                    assert(before.contains(x));
                    let i = choose|i: int| 0 <= i < before.len() && before[i] == x;
                    assert(kept[i] == x);
                } else if before.contains(x) {
                    let i = choose|i: int| 0 <= i < before.len() && before[i] == x;
                    assert(kept[i] == x);
                } else {
                    assert(kept[kept.len() - 1] == x);
                }
            }
        }
    }
}

/// The home directory of `user`, with a closing separator: `C:\Users\user\`
/// on Windows, `/Users/user/` elsewhere.
pub open spec fn home_of(user: Seq<char>, windows: bool) -> Seq<char> {
    if windows {
        "C:\\Users\\"@ + user + "\\"@
    } else {
        "/Users/"@ + user + "/"@
    }
}

/// The home directory of `user` as the tree writes it: `/Users/user`.
pub open spec fn tree_home_of(user: Seq<char>) -> Seq<char> {
    "/Users/"@ + user
}

impl ScanConfiguration {
    /// The threshold is at least one day and its seconds can be counted; no
    /// custom directory is empty.
    pub open spec fn wf(&self) -> bool {
        &&& 1 <= self.time_limit_days <= MAX_TIME_LIMIT_DAYS
        &&& forall|k: int|
            0 <= k < self.custom_directories.len() ==> (#[trigger] self.custom_directories[k])@.len()
                > 0
    }

    /// The directories that the configuration asks for under the home
    /// directory `home`, repetitions included: the well-known folders that
    /// are switched on, then the custom directories.
    pub open spec fn wanted(&self, home: Seq<char>) -> Seq<Seq<char>> {
        let downloads: Seq<Seq<char>> = if self.downloads_enabled {
            seq![home + "Downloads"@]
        } else {
            seq![]
        };
        let documents: Seq<Seq<char>> = if self.documents_enabled {
            seq![home + "Documents"@]
        } else {
            seq![]
        };
        let desktop: Seq<Seq<char>> = if self.desktop_enabled {
            seq![home + "Desktop"@]
        } else {
            seq![]
        };
        downloads + documents + desktop + strings_view(self.custom_directories@)
    }

    /// The configuration that the tool starts with: fourteen days, the three
    /// well-known folders, no custom directory, smart filter on.
    pub fn new() -> (config: ScanConfiguration)
        ensures
            config.wf(),
            config.time_limit_days == DEFAULT_TIME_LIMIT_DAYS,
            config.downloads_enabled && config.documents_enabled && config.desktop_enabled,
            config.custom_directories@.len() == 0,
            config.smart_filter_enabled,
    {
        ScanConfiguration {
            time_limit_days: DEFAULT_TIME_LIMIT_DAYS,
            downloads_enabled: true,
            documents_enabled: true,
            desktop_enabled: true,
            custom_directories: Vec::new(),
            smart_filter_enabled: true,
        }
    }

    /// Sets the threshold to `days`. A threshold of no days, or of more days
    /// than can be counted in seconds, is refused and changes nothing.
    pub fn set_time_limit(&mut self, days: u64) -> (r: Result<(), ConfigError>)
        ensures
            old(self).wf() ==> final(self).wf(),
            r is Ok <==> 1 <= days <= MAX_TIME_LIMIT_DAYS,
            r is Err ==> r == Err::<(), ConfigError>(ConfigError::TimeLimitOutOfRange) && *final(self)
                == *old(self),
            r is Ok ==> *final(self) == (ScanConfiguration { time_limit_days: days, ..*old(self) }),
    {
        if days < 1 || days > MAX_TIME_LIMIT_DAYS {
            return Err(ConfigError::TimeLimitOutOfRange);
        }
        self.time_limit_days = days;
        Ok(())
    }

    /// Adds `directory` behind the custom directories. An empty path is
    /// refused and changes nothing.
    pub fn add_custom_directory(&mut self, directory: String) -> (r: Result<(), ConfigError>)
        ensures
            old(self).wf() ==> final(self).wf(),
            r is Ok <==> directory@.len() > 0,
            r is Err ==> r == Err::<(), ConfigError>(ConfigError::EmptyDirectory) && *final(self)
                == *old(self),
            r is Ok ==> final(self).custom_directories@ == old(self).custom_directories@.push(
                directory,
            ) && final(self).time_limit_days == old(self).time_limit_days
                && final(self).downloads_enabled == old(self).downloads_enabled
                && final(self).documents_enabled == old(self).documents_enabled
                && final(self).desktop_enabled == old(self).desktop_enabled
                && final(self).smart_filter_enabled == old(self).smart_filter_enabled,
    {
        if directory.as_str().is_empty() {
            return Err(ConfigError::EmptyDirectory);
        }
        self.custom_directories.push(directory);
        Ok(())
    }

    /// Takes the custom directory at `position` out of the list and hands it
    /// back. A position behind the list is refused and changes nothing.
    pub fn remove_custom_directory(&mut self, position: usize) -> (r: Result<String, ConfigError>)
        ensures
            old(self).wf() ==> final(self).wf(),
            r is Ok <==> position < old(self).custom_directories@.len(),
            r is Err ==> r == Err::<String, ConfigError>(ConfigError::NoSuchDirectory) && *final(self)
                == *old(self),
            r matches Ok(removed) ==> removed == old(self).custom_directories@[position as int]
                && final(self).custom_directories@ == old(self).custom_directories@.remove(
                position as int,
            ) && final(self).time_limit_days == old(self).time_limit_days
                && final(self).downloads_enabled == old(self).downloads_enabled
                && final(self).documents_enabled == old(self).documents_enabled
                && final(self).desktop_enabled == old(self).desktop_enabled
                && final(self).smart_filter_enabled == old(self).smart_filter_enabled,
    {
        if position >= self.custom_directories.len() {
            return Err(ConfigError::NoSuchDirectory);
        }
        let removed = self.custom_directories.remove(position);
        Ok(removed)
    }

    /// Whether the configuration is well formed.
    pub fn is_valid(&self) -> (valid: bool)
        ensures
            valid == self.wf(),
    {
        if self.time_limit_days < 1 || self.time_limit_days > MAX_TIME_LIMIT_DAYS {
            return false;
        }
        let mut k: usize = 0;
        while k < self.custom_directories.len()
            invariant
                k <= self.custom_directories@.len(),
                forall|j: int| 0 <= j < k ==> (#[trigger] self.custom_directories[j])@.len() > 0,
            decreases self.custom_directories@.len() - k,
        {
            if self.custom_directories[k].as_str().is_empty() {
                return false;
            }
            k += 1;
        }
        true
    }

    /// The threshold in seconds.
    pub fn threshold_seconds(&self) -> (seconds: u64)
        requires
            self.wf(),
        ensures
            seconds == self.time_limit_days * SECONDS_PER_DAY,
    {
        self.time_limit_days * SECONDS_PER_DAY
    }

    /// The directories to search, for the home directory `home` (written with
    /// its closing separator): the well-known folders that are switched on,
    /// then the custom directories, each directory once, in that order.
    pub fn directories(&self, home: &str) -> (list: Vec<String>)
        ensures
            strings_view(list@) == without_repeats(self.wanted(home@)),
    {
        let mut wanted: Vec<String> = Vec::new();
        if self.downloads_enabled {
            wanted.push(join(home, "Downloads"));
        }
        if self.documents_enabled {
            wanted.push(join(home, "Documents"));
        }
        if self.desktop_enabled {
            wanted.push(join(home, "Desktop"));
        }
        assert(strings_view(wanted@) =~= self.wanted(home@).take(wanted@.len() as int));
        let ghost head = wanted@.len();
        let mut k: usize = 0;
        while k < self.custom_directories.len()
            invariant
                k <= self.custom_directories@.len(),
                wanted@.len() == head + k,
                self.wanted(home@).len() == head + self.custom_directories@.len(),
                strings_view(wanted@) == self.wanted(home@).take(head + k),
            decreases self.custom_directories@.len() - k,
        {
            let ghost before = strings_view(wanted@);
            wanted.push(self.custom_directories[k].clone());
            assert(strings_view(wanted@) =~= before.push(self.custom_directories@[k as int]@));
            assert(self.wanted(home@).take(head + k + 1) =~= self.wanted(home@).take(head + k).push(
                self.custom_directories@[k as int]@,
            ));
            k += 1;
        }
        assert(self.wanted(home@).take(head + k) =~= self.wanted(home@));
        drop_repeats(wanted)
    }
}

impl Default for ScanConfiguration {
    /// The configuration that the tool starts with.
    fn default() -> (config: ScanConfiguration)
        ensures
            config.wf(),
            config.time_limit_days == DEFAULT_TIME_LIMIT_DAYS,
            config.downloads_enabled && config.documents_enabled && config.desktop_enabled,
            config.custom_directories@.len() == 0,
            config.smart_filter_enabled,
    {
        ScanConfiguration::new()
    }
}

/// `a` followed by `b`.
pub fn join(a: &str, b: &str) -> (s: String)
    ensures
        s@ == a@ + b@,
{
    let mut chars = chars_of(a);
    let mut tail = chars_of(b);
    chars.append(&mut tail);
    string_from_chars(chars.as_slice())
}

/// Whether `list` holds a string equal to `item`.
pub fn holds(list: &Vec<String>, item: &String) -> (found: bool)
    ensures
        found == strings_view(list@).contains(item@),
{
    let mut k: usize = 0;
    while k < list.len()
        invariant
            k <= list@.len(),
            forall|j: int| 0 <= j < k ==> strings_view(list@)[j] != item@,
        decreases list@.len() - k,
    {
        if list[k] == *item {
            assert(strings_view(list@)[k as int] == item@);
            return true;
        }
        k += 1;
    }
    false
}

/// Drops the repetitions from `list`: of equal strings the first stays.
pub fn drop_repeats(list: Vec<String>) -> (kept: Vec<String>)
    ensures
        strings_view(kept@) == without_repeats(strings_view(list@)),
{
    let ghost all = strings_view(list@);
    let mut kept: Vec<String> = Vec::new();
    let mut k: usize = 0;
    assert(all.take(0) =~= Seq::<Seq<char>>::empty());
    while k < list.len()
        invariant
            all == strings_view(list@),
            k <= list@.len(),
            strings_view(kept@) == without_repeats(all.take(k as int)),
        decreases list@.len() - k,
    {
        proof {
            let upto = all.take(k + 1);
            assert(upto.drop_last() =~= all.take(k as int));
            assert(upto.last() == list@[k as int]@);
        }
        if !holds(&kept, &list[k]) {
            let ghost before = strings_view(kept@);
            kept.push(list[k].clone());
            assert(strings_view(kept@) =~= before.push(list@[k as int]@));
        }
        k += 1;
    }
    assert(all.take(k as int) =~= all);
    kept
}

} // verus!
