//! The game-data sync settings: command-line flags, the optional config file and the
//! environment, merged into the arguments of the sync command.
use vstd::prelude::*;
use crate::text::{
    append_chars, append_decimal, append_str, chars_eq_str, decimal_digits, parse_unsigned,
    parse_unsigned_spec, starts_with, str_chars, string_from_chars, trim, trim_spec,
};

verus! {

/// The message for a value that is not a number.
pub open spec fn integer_error(flag: Seq<char>, value: Seq<char>) -> Seq<char> {
    flag + " expects an integer value, got "@ + value
}

fn integer_error_string(flag: &str, value: &Vec<char>) -> (r: String)
    ensures
        r@ == integer_error(flag@, value@),
{
    let mut message = str_chars(flag);
    append_str(&mut message, " expects an integer value, got ");
    append_chars(&mut message, value);
    proof { reveal_strlit(" expects an integer value, got "); }
    string_from_chars(&message)
}

/// Parses an integer argument no larger than `max`, as `str::parse` does.
pub open spec fn integer_arg_spec(flag: Seq<char>, value: Seq<char>, max: nat) -> Result<nat, Seq<char>> {
    match parse_unsigned_spec(value, max) {
        Some(v) => Ok(v),
        None => Err(integer_error(flag, value)),
    }
}

fn parse_integer_arg(flag: &str, value: &Vec<char>, max: u64) -> (r: Result<u64, String>)
    ensures
        match integer_arg_spec(flag@, value@, max as nat) {
            Ok(v) => r == Ok::<u64, String>(v as u64),
            Err(m) => r matches Err(e) && e@ == m,
        },
{
    match parse_unsigned(value, max) {
        Some(v) => Ok(v),
        None => Err(integer_error_string(flag, value)),
    }
}

/// Parses a `u32` argument.
pub fn parse_u32_arg(flag: &str, value: &str) -> (r: Result<u32, String>)
    ensures
        match integer_arg_spec(flag@, value@, u32::MAX as nat) {
            Ok(v) => r == Ok::<u32, String>(v as u32),
            Err(m) => r matches Err(e) && e@ == m,
        },
{
    match parse_integer_arg(flag, &str_chars(value), u32::MAX as u64) {
        Ok(v) => Ok(v as u32),
        Err(e) => Err(e),
    }
}

/// Parses a `u64` argument.
pub fn parse_u64_arg(flag: &str, value: &str) -> (r: Result<u64, String>)
    ensures
        match integer_arg_spec(flag@, value@, u64::MAX as nat) {
            Ok(v) => r == Ok::<u64, String>(v as u64),
            Err(m) => r matches Err(e) && e@ == m,
        },
{
    parse_integer_arg(flag, &str_chars(value), u64::MAX)
}

/// Parses a `usize` argument.
pub fn parse_usize_arg(flag: &str, value: &str) -> (r: Result<usize, String>)
    ensures
        match integer_arg_spec(flag@, value@, usize::MAX as nat) {
            Ok(v) => r == Ok::<usize, String>(v as usize),
            Err(m) => r matches Err(e) && e@ == m,
        },
{
    match parse_integer_arg(flag, &str_chars(value), usize::MAX as u64) {
        Ok(v) => Ok(v as usize),
        Err(e) => Err(e),
    }
}

/// A chart difficulty by number or name.
pub open spec fn chart_difficulty_spec(value: Seq<char>) -> Result<u8, Seq<char>> {
    if value == "0"@ || value == "easy"@ {
        Ok(0)
    } else if value == "1"@ || value == "normal"@ {
        Ok(1)
    } else if value == "2"@ || value == "hard"@ {
        Ok(2)
    } else if value == "3"@ || value == "expert"@ {
        Ok(3)
    } else if value == "4"@ || value == "special"@ {
        Ok(4)
    } else {
        Err("invalid chart difficulty: "@ + value)
    }
}

fn chart_difficulty_chars(value: &Vec<char>) -> (r: Result<u8, String>)
    ensures
        match chart_difficulty_spec(value@) {
            Ok(d) => r == Ok::<u8, String>(d),
            Err(m) => r matches Err(e) && e@ == m,
        },
{
    proof {
        reveal_strlit("0");
        reveal_strlit("easy");
        reveal_strlit("1");
        reveal_strlit("normal");
        reveal_strlit("2");
        reveal_strlit("hard");
        reveal_strlit("3");
        reveal_strlit("expert");
        reveal_strlit("4");
        reveal_strlit("special");
    }
    if chars_eq_str(value, "0") || chars_eq_str(value, "easy") {
        Ok(0)
    } else if chars_eq_str(value, "1") || chars_eq_str(value, "normal") {
        Ok(1)
    } else if chars_eq_str(value, "2") || chars_eq_str(value, "hard") {
        Ok(2)
    } else if chars_eq_str(value, "3") || chars_eq_str(value, "expert") {
        Ok(3)
    } else if chars_eq_str(value, "4") || chars_eq_str(value, "special") {
        Ok(4)
    } else {
        let mut message = str_chars("invalid chart difficulty: ");
        append_chars(&mut message, value);
        proof { reveal_strlit("invalid chart difficulty: "); }
        Err(string_from_chars(&message))
    }
}

/// Parses a chart difficulty: 0 to 4, or easy, normal, hard, expert, special.
pub fn parse_chart_difficulty(value: &str) -> (r: Result<u8, String>)
    ensures
        match chart_difficulty_spec(value@) {
            Ok(d) => r == Ok::<u8, String>(d),
            Err(m) => r matches Err(e) && e@ == m,
        },
{
    chart_difficulty_chars(&str_chars(value))
}

/// Position of the first `c` in `s`, if any.
pub open spec fn first_index_of(s: Seq<char>, c: char, from: int) -> Option<int>
    decreases s.len() - from,
{
    if from < 0 || from >= s.len() {
        None
    } else if s[from] == c {
        Some(from)
    } else {
        first_index_of(s, c, from + 1)
    }
}

pub(crate) proof fn lemma_first_index_of_bounds(s: Seq<char>, c: char, from: int)
    requires
        0 <= from,
    ensures
        first_index_of(s, c, from) matches Some(i) ==> from <= i < s.len() && s[i] == c,
    decreases s.len() - from,
{
    if from < s.len() && s[from] != c {
        lemma_first_index_of_bounds(s, c, from + 1);
    }
}

pub(crate) fn find_char(s: &Vec<char>, c: char) -> (r: Option<usize>)
    ensures
        match first_index_of(s@, c, 0) {
            Some(i) => r == Some(i as usize),
            None => r is None,
        },
{
    let mut i: usize = 0;
    while i < s.len()
        invariant
            i <= s@.len(),
            first_index_of(s@, c, 0) == first_index_of(s@, c, i as int),
        decreases s@.len() - i,
    {
        if s[i] == c {
            return Some(i);
        }
        i = i + 1;
    }
    None
}

pub(crate) fn sub_chars(s: &Vec<char>, from: usize, to: usize) -> (r: Vec<char>)
    requires
        from <= to <= s@.len(),
    ensures
        r@ == s@.subrange(from as int, to as int),
{
    let mut out: Vec<char> = Vec::new();
    let mut i = from;
    while i < to
        invariant
            from <= i <= to <= s@.len(),
            out@ =~= s@.subrange(from as int, i as int),
        decreases to - i,
    {
        out.push(s[i]);
        i = i + 1;
    }
    out
}

/// A chart as "songId:difficulty", split at the first colon.
pub open spec fn chart_spec(raw: Seq<char>) -> Result<(u32, u8), Seq<char>> {
    match first_index_of(raw, ':', 0) {
        None => Err("chart must be in songId:difficulty format, got "@ + raw),
        Some(i) => match integer_arg_spec("--game-data-sync-chart"@, raw.subrange(0, i), u32::MAX as nat) {
            Err(m) => Err(m),
            Ok(song) => match chart_difficulty_spec(raw.subrange(i + 1, raw.len() as int)) {
                Err(m) => Err(m),
                Ok(d) => Ok((song as u32, d)),
            },
        },
    }
}

fn chart_chars(raw: &Vec<char>) -> (r: Result<(u32, u8), String>)
    ensures
        match chart_spec(raw@) {
            Ok(c) => r == Ok::<(u32, u8), String>(c),
            Err(m) => r matches Err(e) && e@ == m,
        },
{
    proof { lemma_first_index_of_bounds(raw@, ':', 0); }
    let colon = match find_char(raw, ':') {
        Some(i) => i,
        None => {
            let mut message = str_chars("chart must be in songId:difficulty format, got ");
            append_chars(&mut message, raw);
            proof { reveal_strlit("chart must be in songId:difficulty format, got "); }
            return Err(string_from_chars(&message));
        },
    };
    let n = raw.len();
    assert(colon < n);
    let song_text = sub_chars(raw, 0, colon);
    let song = match parse_integer_arg("--game-data-sync-chart", &song_text, 0xffff_ffff) {
        Ok(v) => v as u32,
        Err(e) => {
            proof {
                assert(integer_arg_spec("--game-data-sync-chart"@, raw@.subrange(0, colon as int), u32::MAX as nat) is Err);
            }
            return Err(e);
        },
    };
    let difficulty = match chart_difficulty_chars(&sub_chars(raw, colon + 1, n)) {
        Ok(d) => d,
        Err(e) => return Err(e),
    };
    Ok((song, difficulty))
}

/// Parses a chart given as "songId:difficulty".
pub fn parse_chart(raw: &str) -> (r: Result<(u32, u8), String>)
    ensures
        match chart_spec(raw@) {
            Ok(c) => r == Ok::<(u32, u8), String>(c),
            Err(m) => r matches Err(e) && e@ == m,
        },
{
    chart_chars(&str_chars(raw))
}

/// The pieces of `s` between occurrences of `c`.
pub open spec fn split_char(s: Seq<char>, c: char) -> Seq<Seq<char>>
    decreases s.len(),
{
    if s.len() == 0 {
        seq![Seq::empty()]
    } else {
        let rest = split_char(s.drop_last(), c);
        if s.last() == c {
            rest.push(Seq::empty())
        } else {
            rest.update(rest.len() - 1, rest.last().push(s.last()))
        }
    }
}

proof fn lemma_split_char_nonempty(s: Seq<char>, c: char)
    ensures
        split_char(s, c).len() >= 1,
    decreases s.len(),
{
    if s.len() > 0 {
        lemma_split_char_nonempty(s.drop_last(), c);
    }
}

/// The trimmed pieces that are not blank.
pub open spec fn nonblank_trimmed(pieces: Seq<Seq<char>>) -> Seq<Seq<char>>
    decreases pieces.len(),
{
    if pieces.len() == 0 {
        Seq::empty()
    } else {
        let rest = nonblank_trimmed(pieces.drop_last());
        let t = trim_spec(pieces.last());
        if t.len() > 0 { rest.push(t) } else { rest }
    }
}

/// The items of a comma-separated list: trimmed, blanks left out.
pub open spec fn csv_items(s: Seq<char>) -> Seq<Seq<char>> {
    nonblank_trimmed(split_char(s, ','))
}

/// The views of strings.
pub open spec fn string_views(v: Seq<String>) -> Seq<Seq<char>> {
    Seq::new(v.len(), |i: int| v[i]@)
}

proof fn lemma_nonblank_trimmed_push(pieces: Seq<Seq<char>>, p: Seq<char>)
    ensures
        nonblank_trimmed(pieces.push(p)) == if trim_spec(p).len() > 0 {
            nonblank_trimmed(pieces).push(trim_spec(p))
        } else {
            nonblank_trimmed(pieces)
        },
{
    assert(pieces.push(p).drop_last() =~= pieces);
}

/// The items of a comma-separated list.
pub fn split_csv(value: &str) -> (r: Vec<String>)
    ensures
        string_views(r@) == csv_items(value@),
{
    let chars = str_chars(value);
    let mut out: Vec<String> = Vec::new();
    let mut current: Vec<char> = Vec::new();
    let ghost mut done: Seq<Seq<char>> = Seq::empty();
    let mut i: usize = 0;
    proof {
        assert(chars@.subrange(0, 0) =~= Seq::<char>::empty());
        assert(split_char(Seq::<char>::empty(), ',') =~= done.push(current@));
    }
    while i < chars.len()
        invariant
            i <= chars@.len(),
            split_char(chars@.subrange(0, i as int), ',') == done.push(current@),
            string_views(out@) == nonblank_trimmed(done),
        decreases chars@.len() - i,
    {
        let c = chars[i];
        proof {
            assert(chars@.subrange(0, i + 1).drop_last() =~= chars@.subrange(0, i as int));
            assert(chars@.subrange(0, i + 1).last() == c);
        }
        if c == ',' {
            let t = trim(&current);
            proof { lemma_nonblank_trimmed_push(done, current@); }
            if t.len() > 0 {
                let ghost before = out@;
                out.push(string_from_chars(&t));
                proof { assert(string_views(out@) =~= string_views(before).push(t@)); }
            }
            proof {
                done = done.push(current@);
            }
            current = Vec::new();
            proof {
                assert(split_char(chars@.subrange(0, i + 1), ',') =~= done.push(current@));
            }
        } else {
            let ghost before = current@;
            current.push(c);
            proof {
                let prev = done.push(before);
                assert(prev.update(prev.len() - 1, prev.last().push(c)) =~= done.push(current@));
            }
        }
        i = i + 1;
    }
    let t = trim(&current);
    proof {
        assert(chars@.subrange(0, i as int) =~= chars@);
        lemma_nonblank_trimmed_push(done, current@);
    }
    if t.len() > 0 {
        let ghost before = out@;
        out.push(string_from_chars(&t));
        proof { assert(string_views(out@) =~= string_views(before).push(t@)); }
    }
    out
}

/// What `serde_json` makes of a JSON array of strings, or its error message.
pub uninterp spec fn json_string_array(text: Seq<char>) -> Result<Seq<Seq<char>>, Seq<char>>;

/// `serde_json::from_str::<Vec<String>>`, its error shown by `Display`. The contract names
/// the result.
#[verifier::external_body]
fn parse_json_string_array(text: &str) -> (r: Result<Vec<String>, String>)
    ensures
        match json_string_array(text@) {
            Ok(items) => r matches Ok(v) && string_views(v@) == items,
            Err(m) => r matches Err(e) && e@ == m,
        },
{
    match serde_json::from_str::<Vec<String>>(text) {
        Ok(items) => Ok(items),
        Err(error) => Err(error.to_string()),
    }
}

/// The sync options given on the command line.
#[derive(Debug, Clone, PartialEq, Eq)]
pub struct GameDataSyncCliConfig {
    pub enabled: Option<bool>,
    pub interval: Option<u64>,
    pub out: Option<String>,
    pub base_url: Option<String>,
    pub repair_dir: Option<String>,
    pub events: Vec<u32>,
    pub charts: Vec<(u32, u8)>,
    pub player_files: Vec<String>,
    pub all_event_details: Option<bool>,
    pub all_charts: Option<bool>,
    pub all_card_details: Option<bool>,
    pub concurrency: Option<usize>,
    pub retries: Option<usize>,
    pub command: Option<String>,
    pub extra_args: Vec<String>,
    pub config_path: Option<String>,
    pub help_requested: bool,
}

/// The sync options given on the command line, as values.
pub struct CliView {
    pub enabled: Option<bool>,
    pub interval: Option<u64>,
    pub out: Option<Seq<char>>,
    pub base_url: Option<Seq<char>>,
    pub repair_dir: Option<Seq<char>>,
    pub events: Seq<u32>,
    pub charts: Seq<(u32, u8)>,
    pub player_files: Seq<Seq<char>>,
    pub all_event_details: Option<bool>,
    pub all_charts: Option<bool>,
    pub all_card_details: Option<bool>,
    pub concurrency: Option<usize>,
    pub retries: Option<usize>,
    pub command: Option<Seq<char>>,
    pub extra_args: Seq<Seq<char>>,
    pub config_path: Option<Seq<char>>,
    pub help_requested: bool,
}

/// The characters of an optional string.
pub open spec fn opt_view(o: Option<String>) -> Option<Seq<char>> {
    match o {
        Some(s) => Some(s@),
        None => None,
    }
}

impl View for GameDataSyncCliConfig {
    type V = CliView;

    open spec fn view(&self) -> CliView {
        CliView {
            enabled: self.enabled,
            interval: self.interval,
            out: opt_view(self.out),
            base_url: opt_view(self.base_url),
            repair_dir: opt_view(self.repair_dir),
            events: self.events@,
            charts: self.charts@,
            player_files: string_views(self.player_files@),
            all_event_details: self.all_event_details,
            all_charts: self.all_charts,
            all_card_details: self.all_card_details,
            concurrency: self.concurrency,
            retries: self.retries,
            command: opt_view(self.command),
            extra_args: string_views(self.extra_args@),
            config_path: opt_view(self.config_path),
            help_requested: self.help_requested,
        }
    }
}

/// No options given.
pub open spec fn empty_cli() -> CliView {
    CliView {
        enabled: None,
        interval: None,
        out: None,
        base_url: None,
        repair_dir: None,
        events: Seq::empty(),
        charts: Seq::empty(),
        player_files: Seq::empty(),
        all_event_details: None,
        all_charts: None,
        all_card_details: None,
        concurrency: None,
        retries: None,
        command: None,
        extra_args: Seq::empty(),
        config_path: None,
        help_requested: false,
    }
}

impl Default for GameDataSyncCliConfig {
    fn default() -> (r: Self)
        ensures
            r@ == empty_cli(),
    {
        let r = GameDataSyncCliConfig {
            enabled: None,
            interval: None,
            out: None,
            base_url: None,
            repair_dir: None,
            events: Vec::new(),
            charts: Vec::new(),
            player_files: Vec::new(),
            all_event_details: None,
            all_charts: None,
            all_card_details: None,
            concurrency: None,
            retries: None,
            command: None,
            extra_args: Vec::new(),
            config_path: None,
            help_requested: false,
        };
        proof { assert(r@.player_files =~= Seq::<Seq<char>>::empty()); assert(r@.extra_args =~= Seq::<Seq<char>>::empty()); }
        r
    }
}

/// Numbers parsed from list items, or the first item's error.
pub open spec fn u32_items(flag: Seq<char>, items: Seq<Seq<char>>) -> Result<Seq<u32>, Seq<char>>
    decreases items.len(),
{
    if items.len() == 0 {
        Ok(Seq::empty())
    } else {
        match u32_items(flag, items.drop_last()) {
            Err(m) => Err(m),
            Ok(done) => match integer_arg_spec(flag, items.last(), u32::MAX as nat) {
                Err(m) => Err(m),
                Ok(v) => Ok(done.push(v as u32)),
            },
        }
    }
}

/// Charts parsed from list items, or the first item's error.
pub open spec fn chart_items(items: Seq<Seq<char>>) -> Result<Seq<(u32, u8)>, Seq<char>>
    decreases items.len(),
{
    if items.len() == 0 {
        Ok(Seq::empty())
    } else {
        match chart_items(items.drop_last()) {
            Err(m) => Err(m),
            Ok(done) => match chart_spec(items.last()) {
                Err(m) => Err(m),
                Ok(c) => Ok(done.push(c)),
            },
        }
    }
}

/// The message for a flag given without its value.
pub open spec fn missing_value(flag: Seq<char>) -> Seq<char> {
    "missing value for "@ + flag
}

/// The value after argument `i`, or the error naming `flag`.
pub open spec fn value_after(args: Seq<Seq<char>>, i: int, flag: Seq<char>) -> Result<Seq<char>, Seq<char>> {
    if i + 1 < args.len() { Ok(args[i + 1]) } else { Err(missing_value(flag)) }
}

/// Argument `i` applied to the options: the new options and the next argument to read, or
/// an error. `--help` stops reading.
pub open spec fn cli_step(args: Seq<Seq<char>>, i: int, c: CliView) -> Result<(CliView, int), Seq<char>> {
    let arg = args[i];
    if arg == "--game-data-sync"@ {
        Ok((CliView { enabled: Some(true), ..c }, i + 1))
    } else if arg == "--no-game-data-sync"@ {
        Ok((CliView { enabled: Some(false), ..c }, i + 1))
    } else if arg == "--game-data-sync-interval"@ || arg == "--game-data-sync-interval-seconds"@ {
        match value_after(args, i, "--game-data-sync-interval"@) {
            Err(m) => Err(m),
            Ok(v) => match integer_arg_spec("--game-data-sync-interval"@, v, u64::MAX as nat) {
                Err(m) => Err(m),
                Ok(n) => Ok((CliView { interval: Some(n as u64), ..c }, i + 2)),
            },
        }
    } else if arg == "--game-data-sync-out"@ {
        match value_after(args, i, "--game-data-sync-out"@) {
            Err(m) => Err(m),
            Ok(v) => Ok((CliView { out: Some(v), ..c }, i + 2)),
        }
    } else if arg == "--game-data-sync-base-url"@ {
        match value_after(args, i, "--game-data-sync-base-url"@) {
            Err(m) => Err(m),
            Ok(v) => Ok((CliView { base_url: Some(v), ..c }, i + 2)),
        }
    } else if arg == "--game-data-sync-repair-dir"@ {
        match value_after(args, i, "--game-data-sync-repair-dir"@) {
            Err(m) => Err(m),
            Ok(v) => Ok((CliView { repair_dir: Some(v), ..c }, i + 2)),
        }
    } else if arg == "--game-data-sync-event"@ {
        match value_after(args, i, "--game-data-sync-event"@) {
            Err(m) => Err(m),
            Ok(v) => match integer_arg_spec("--game-data-sync-event"@, v, u32::MAX as nat) {
                Err(m) => Err(m),
                Ok(n) => Ok((CliView { events: c.events.push(n as u32), ..c }, i + 2)),
            },
        }
    } else if arg == "--game-data-sync-events"@ {
        match value_after(args, i, "--game-data-sync-events"@) {
            Err(m) => Err(m),
            Ok(v) => match u32_items("--game-data-sync-events"@, csv_items(v)) {
                Err(m) => Err(m),
                Ok(ns) => Ok((CliView { events: c.events + ns, ..c }, i + 2)),
            },
        }
    } else if arg == "--game-data-sync-chart"@ {
        match value_after(args, i, "--game-data-sync-chart"@) {
            Err(m) => Err(m),
            Ok(v) => match chart_spec(v) {
                Err(m) => Err(m),
                Ok(ch) => Ok((CliView { charts: c.charts.push(ch), ..c }, i + 2)),
            },
        }
    } else if arg == "--game-data-sync-charts"@ {
        match value_after(args, i, "--game-data-sync-charts"@) {
            Err(m) => Err(m),
            Ok(v) => match chart_items(csv_items(v)) {
                Err(m) => Err(m),
                Ok(chs) => Ok((CliView { charts: c.charts + chs, ..c }, i + 2)),
            },
        }
    } else if arg == "--game-data-sync-player"@ || arg == "--game-data-sync-player-file"@ {
        match value_after(args, i, "--game-data-sync-player"@) {
            Err(m) => Err(m),
            Ok(v) => Ok((CliView { player_files: c.player_files.push(v), ..c }, i + 2)),
        }
    } else if arg == "--game-data-sync-all-event-details"@ {
        Ok((CliView { all_event_details: Some(true), ..c }, i + 1))
    } else if arg == "--no-game-data-sync-all-event-details"@ {
        Ok((CliView { all_event_details: Some(false), ..c }, i + 1))
    } else if arg == "--game-data-sync-all-charts"@ {
        Ok((CliView { all_charts: Some(true), ..c }, i + 1))
    } else if arg == "--no-game-data-sync-all-charts"@ {
        Ok((CliView { all_charts: Some(false), ..c }, i + 1))
    } else if arg == "--game-data-sync-all-card-details"@ {
        Ok((CliView { all_card_details: Some(true), ..c }, i + 1))
    } else if arg == "--no-game-data-sync-all-card-details"@ {
        Ok((CliView { all_card_details: Some(false), ..c }, i + 1))
    } else if arg == "--game-data-sync-concurrency"@ {
        match value_after(args, i, "--game-data-sync-concurrency"@) {
            Err(m) => Err(m),
            Ok(v) => match integer_arg_spec("--game-data-sync-concurrency"@, v, usize::MAX as nat) {
                Err(m) => Err(m),
                Ok(n) => Ok((CliView { concurrency: Some(n as usize), ..c }, i + 2)),
            },
        }
    } else if arg == "--game-data-sync-retries"@ {
        match value_after(args, i, "--game-data-sync-retries"@) {
            Err(m) => Err(m),
            Ok(v) => match integer_arg_spec("--game-data-sync-retries"@, v, usize::MAX as nat) {
                Err(m) => Err(m),
                Ok(n) => Ok((CliView { retries: Some(n as usize), ..c }, i + 2)),
            },
        }
    } else if arg == "--game-data-sync-extra-arg"@ {
        match value_after(args, i, "--game-data-sync-extra-arg"@) {
            Err(m) => Err(m),
            Ok(v) => Ok((CliView { extra_args: c.extra_args.push(v), ..c }, i + 2)),
        }
    } else if arg == "--game-data-sync-extra-args"@ {
        match value_after(args, i, "--game-data-sync-extra-args"@) {
            Err(m) => Err(m),
            Ok(v) => match json_string_array(v) {
                Err(e) => Err("--game-data-sync-extra-args must be a JSON array: "@ + e),
                Ok(items) => Ok((CliView { extra_args: c.extra_args + items, ..c }, i + 2)),
            },
        }
    } else if arg == "--game-data-sync-config"@ {
        match value_after(args, i, "--game-data-sync-config"@) {
            Err(m) => Err(m),
            Ok(v) => Ok((CliView { config_path: Some(v), ..c }, i + 2)),
        }
    } else if arg == "--game-data-sync-command"@ {
        match value_after(args, i, "--game-data-sync-command"@) {
            Err(m) => Err(m),
            Ok(v) => Ok((CliView { command: Some(v), ..c }, i + 2)),
        }
    } else if arg == "--help"@ {
        Ok((CliView { help_requested: true, ..c }, args.len() as int))
    } else if arg.len() >= 16 && arg.subrange(0, 16) == "--game-data-sync"@ {
        Err("unknown game-data sync argument: "@ + arg)
    } else {
        Ok((c, i + 1))
    }
}

/// The options from argument `i` on, or the first error.
pub open spec fn cli_parse_from(args: Seq<Seq<char>>, i: int, c: CliView) -> Result<CliView, Seq<char>>
    decreases args.len() - i,
{
    if i < 0 || i >= args.len() {
        Ok(c)
    } else {
        match cli_step(args, i, c) {
            Err(m) => Err(m),
            Ok((next, j)) => if j <= i { Ok(next) } else { cli_parse_from(args, j, next) },
        }
    }
}

/// The value after argument `i`.
fn value_after_exec(args: &Vec<String>, i: usize, flag: &str) -> (r: Result<Vec<char>, String>)
    requires
        i < args@.len(),
    ensures
        match value_after(string_views(args@), i as int, flag@) {
            Ok(v) => r matches Ok(x) && x@ == v,
            Err(m) => r matches Err(e) && e@ == m,
        },
{
    if i < args.len() - 1 {
        Ok(str_chars(args[i + 1].as_str()))
    } else {
        let mut message = str_chars("missing value for ");
        append_str(&mut message, flag);
        proof { reveal_strlit("missing value for "); }
        Err(string_from_chars(&message))
    }
}

fn append_u32_items(flag: &str, items: &Vec<String>, out: &mut Vec<u32>) -> (r: Result<(), String>)
    ensures
        match u32_items(flag@, string_views(items@)) {
            Ok(ns) => r is Ok && final(out)@ == old(out)@ + ns,
            Err(m) => r matches Err(e) && e@ == m,
        },
{
    let ghost head = out@;
    let mut k: usize = 0;
    proof {
        assert(string_views(items@).subrange(0, 0) =~= Seq::<Seq<char>>::empty());
        assert(out@.subrange(head.len() as int, out@.len() as int) =~= Seq::<u32>::empty());
        assert(out@.subrange(0, head.len() as int) =~= head);
    }
    while k < items.len()
        invariant
            k <= items@.len(),
            u32_items(flag@, string_views(items@).subrange(0, k as int)) == Ok::<Seq<u32>, Seq<char>>(out@.subrange(head.len() as int, out@.len() as int)),
            out@.len() >= head.len(),
            out@.subrange(0, head.len() as int) == head,
        decreases items@.len() - k,
    {
        let ghost before = out@;
        proof {
            assert(string_views(items@).subrange(0, k + 1).drop_last() =~= string_views(items@).subrange(0, k as int));
            assert(string_views(items@).subrange(0, k + 1).last() == items@[k as int]@);
        }
        match parse_integer_arg(flag, &str_chars(items[k].as_str()), 0xffff_ffff) {
            Ok(v) => {
                out.push(v as u32);
                proof {
                    assert(out@.subrange(head.len() as int, out@.len() as int) =~= before.subrange(head.len() as int, before.len() as int).push(v as u32));
                    assert(out@.subrange(0, head.len() as int) =~= before.subrange(0, head.len() as int));
                }
            },
            Err(e) => {
                proof {
                    lemma_u32_items_error_sticks(flag@, string_views(items@), (k + 1) as int);
                }
                return Err(e);
            },
        }
        k = k + 1;
    }
    proof {
        assert(string_views(items@).subrange(0, k as int) =~= string_views(items@));
        assert(out@ =~= head + out@.subrange(head.len() as int, out@.len() as int));
    }
    Ok(())
}

proof fn lemma_u32_items_error_sticks(flag: Seq<char>, items: Seq<Seq<char>>, k: int)
    requires
        0 <= k <= items.len(),
        u32_items(flag, items.subrange(0, k)) is Err,
    ensures
        u32_items(flag, items) == u32_items(flag, items.subrange(0, k)),
    decreases items.len() - k,
{
    if k < items.len() {
        assert(items.subrange(0, k + 1).drop_last() =~= items.subrange(0, k));
        lemma_u32_items_error_sticks(flag, items, k + 1);
    } else {
        assert(items.subrange(0, k) =~= items);
    }
}

proof fn lemma_chart_items_error_sticks(items: Seq<Seq<char>>, k: int)
    requires
        0 <= k <= items.len(),
        chart_items(items.subrange(0, k)) is Err,
    ensures
        chart_items(items) == chart_items(items.subrange(0, k)),
    decreases items.len() - k,
{
    if k < items.len() {
        assert(items.subrange(0, k + 1).drop_last() =~= items.subrange(0, k));
        lemma_chart_items_error_sticks(items, k + 1);
    } else {
        assert(items.subrange(0, k) =~= items);
    }
}

pub(crate) fn append_chart_items(items: &Vec<String>, out: &mut Vec<(u32, u8)>) -> (r: Result<(), String>)
    ensures
        match chart_items(string_views(items@)) {
            Ok(cs) => r is Ok && final(out)@ == old(out)@ + cs,
            Err(m) => r matches Err(e) && e@ == m,
        },
{
    let ghost head = out@;
    let mut k: usize = 0;
    proof {
        assert(string_views(items@).subrange(0, 0) =~= Seq::<Seq<char>>::empty());
        assert(out@.subrange(head.len() as int, out@.len() as int) =~= Seq::<(u32, u8)>::empty());
        assert(out@.subrange(0, head.len() as int) =~= head);
    }
    while k < items.len()
        invariant
            k <= items@.len(),
            chart_items(string_views(items@).subrange(0, k as int)) == Ok::<Seq<(u32, u8)>, Seq<char>>(out@.subrange(head.len() as int, out@.len() as int)),
            out@.len() >= head.len(),
            out@.subrange(0, head.len() as int) == head,
        decreases items@.len() - k,
    {
        let ghost before = out@;
        proof {
            assert(string_views(items@).subrange(0, k + 1).drop_last() =~= string_views(items@).subrange(0, k as int));
            assert(string_views(items@).subrange(0, k + 1).last() == items@[k as int]@);
        }
        match chart_chars(&str_chars(items[k].as_str())) {
            Ok(c) => {
                out.push(c);
                proof {
                    assert(out@.subrange(head.len() as int, out@.len() as int) =~= before.subrange(head.len() as int, before.len() as int).push(c));
                    assert(out@.subrange(0, head.len() as int) =~= before.subrange(0, head.len() as int));
                }
            },
            Err(e) => {
                proof { lemma_chart_items_error_sticks(string_views(items@), (k + 1) as int); }
                return Err(e);
            },
        }
        k = k + 1;
    }
    proof {
        assert(string_views(items@).subrange(0, k as int) =~= string_views(items@));
        assert(out@ =~= head + out@.subrange(head.len() as int, out@.len() as int));
    }
    Ok(())
}

pub(crate) fn push_string(v: &mut Vec<String>, s: String)
    ensures
        string_views(final(v)@) == string_views(old(v)@).push(s@),
{
    v.push(s);
    proof { assert(string_views(v@) =~= string_views(old(v)@).push(s@)); }
}

pub(crate) fn append_strings(v: &mut Vec<String>, more: Vec<String>)
    ensures
        string_views(final(v)@) == string_views(old(v)@) + string_views(more@),
{
    let ghost head = string_views(v@);
    let mut k: usize = 0;
    while k < more.len()
        invariant
            k <= more@.len(),
            string_views(v@) == head + string_views(more@).subrange(0, k as int),
        decreases more@.len() - k,
    {
        let ghost before = string_views(v@);
        v.push(more[k].clone());
        proof {
            assert(string_views(v@) =~= before.push(more@[k as int]@));
            assert(string_views(more@).subrange(0, k + 1) =~= string_views(more@).subrange(0, k as int).push(more@[k as int]@));
        }
        k = k + 1;
    }
    proof { assert(string_views(more@).subrange(0, k as int) =~= string_views(more@)); }
}

/// Applies argument `i` to the options; answers the next argument to read.
fn cli_apply(args: &Vec<String>, i: usize, config: &mut GameDataSyncCliConfig) -> (r: Result<usize, String>)
    requires
        i < args@.len(),
    ensures
        match cli_step(string_views(args@), i as int, old(config)@) {
            Ok((c, j)) => r == Ok::<usize, String>(j as usize) && final(config)@ == c,
            Err(m) => r matches Err(e) && e@ == m,
        },
{
    let ghost views = string_views(args@);
    let n = args.len();
    assert(i < n);
    let arg = str_chars(args[i].as_str());
    proof { assert(arg@ == views[i as int]); }
    if chars_eq_str(&arg, "--game-data-sync") {
        config.enabled = Some(true);
        Ok(i + 1)
    } else if chars_eq_str(&arg, "--no-game-data-sync") {
        config.enabled = Some(false);
        Ok(i + 1)
    } else if chars_eq_str(&arg, "--game-data-sync-interval") || chars_eq_str(&arg, "--game-data-sync-interval-seconds") {
        let v = match value_after_exec(args, i, "--game-data-sync-interval") {
            Ok(v) => v,
            Err(e) => return Err(e),
        };
        match parse_integer_arg("--game-data-sync-interval", &v, u64::MAX) {
            Ok(n) => {
                config.interval = Some(n);
                Ok(i + 2)
            },
            Err(e) => Err(e),
        }
    } else if chars_eq_str(&arg, "--game-data-sync-out") {
        match value_after_exec(args, i, "--game-data-sync-out") {
            Ok(v) => {
                config.out = Some(string_from_chars(&v));
                Ok(i + 2)
            },
            Err(e) => Err(e),
        }
    } else if chars_eq_str(&arg, "--game-data-sync-base-url") {
        match value_after_exec(args, i, "--game-data-sync-base-url") {
            Ok(v) => {
                config.base_url = Some(string_from_chars(&v));
                Ok(i + 2)
            },
            Err(e) => Err(e),
        }
    } else if chars_eq_str(&arg, "--game-data-sync-repair-dir") {
        match value_after_exec(args, i, "--game-data-sync-repair-dir") {
            Ok(v) => {
                config.repair_dir = Some(string_from_chars(&v));
                Ok(i + 2)
            },
            Err(e) => Err(e),
        }
    } else if chars_eq_str(&arg, "--game-data-sync-event") {
        let v = match value_after_exec(args, i, "--game-data-sync-event") {
            Ok(v) => v,
            Err(e) => return Err(e),
        };
        match parse_integer_arg("--game-data-sync-event", &v, 0xffff_ffff) {
            Ok(n) => {
                config.events.push(n as u32);
                Ok(i + 2)
            },
            Err(e) => Err(e),
        }
    } else if chars_eq_str(&arg, "--game-data-sync-events") {
        let v = match value_after_exec(args, i, "--game-data-sync-events") {
            Ok(v) => v,
            Err(e) => return Err(e),
        };
        let items = split_csv(string_from_chars(&v).as_str());
        match append_u32_items("--game-data-sync-events", &items, &mut config.events) {
            Ok(()) => Ok(i + 2),
            Err(e) => Err(e),
        }
    } else if chars_eq_str(&arg, "--game-data-sync-chart") {
        let v = match value_after_exec(args, i, "--game-data-sync-chart") {
            Ok(v) => v,
            Err(e) => return Err(e),
        };
        match chart_chars(&v) {
            Ok(c) => {
                config.charts.push(c);
                Ok(i + 2)
            },
            Err(e) => Err(e),
        }
    } else if chars_eq_str(&arg, "--game-data-sync-charts") {
        let v = match value_after_exec(args, i, "--game-data-sync-charts") {
            Ok(v) => v,
            Err(e) => return Err(e),
        };
        let items = split_csv(string_from_chars(&v).as_str());
        match append_chart_items(&items, &mut config.charts) {
            Ok(()) => Ok(i + 2),
            Err(e) => Err(e),
        }
    } else if chars_eq_str(&arg, "--game-data-sync-player") || chars_eq_str(&arg, "--game-data-sync-player-file") {
        match value_after_exec(args, i, "--game-data-sync-player") {
            Ok(v) => {
                push_string(&mut config.player_files, string_from_chars(&v));
                Ok(i + 2)
            },
            Err(e) => Err(e),
        }
    } else if chars_eq_str(&arg, "--game-data-sync-all-event-details") {
        config.all_event_details = Some(true);
        Ok(i + 1)
    } else if chars_eq_str(&arg, "--no-game-data-sync-all-event-details") {
        config.all_event_details = Some(false);
        Ok(i + 1)
    } else if chars_eq_str(&arg, "--game-data-sync-all-charts") {
        config.all_charts = Some(true);
        Ok(i + 1)
    } else if chars_eq_str(&arg, "--no-game-data-sync-all-charts") {
        config.all_charts = Some(false);
        Ok(i + 1)
    } else if chars_eq_str(&arg, "--game-data-sync-all-card-details") {
        config.all_card_details = Some(true);
        Ok(i + 1)
    } else if chars_eq_str(&arg, "--no-game-data-sync-all-card-details") {
        config.all_card_details = Some(false);
        Ok(i + 1)
    } else if chars_eq_str(&arg, "--game-data-sync-concurrency") {
        let v = match value_after_exec(args, i, "--game-data-sync-concurrency") {
            Ok(v) => v,
            Err(e) => return Err(e),
        };
        match parse_integer_arg("--game-data-sync-concurrency", &v, usize::MAX as u64) {
            Ok(n) => {
                config.concurrency = Some(n as usize);
                Ok(i + 2)
            },
            Err(e) => Err(e),
        }
    } else if chars_eq_str(&arg, "--game-data-sync-retries") {
        let v = match value_after_exec(args, i, "--game-data-sync-retries") {
            Ok(v) => v,
            Err(e) => return Err(e),
        };
        match parse_integer_arg("--game-data-sync-retries", &v, usize::MAX as u64) {
            Ok(n) => {
                config.retries = Some(n as usize);
                Ok(i + 2)
            },
            Err(e) => Err(e),
        }
    } else if chars_eq_str(&arg, "--game-data-sync-extra-arg") {
        match value_after_exec(args, i, "--game-data-sync-extra-arg") {
            Ok(v) => {
                push_string(&mut config.extra_args, string_from_chars(&v));
                Ok(i + 2)
            },
            Err(e) => Err(e),
        }
    } else if chars_eq_str(&arg, "--game-data-sync-extra-args") {
        let v = match value_after_exec(args, i, "--game-data-sync-extra-args") {
            Ok(v) => v,
            Err(e) => return Err(e),
        };
        match parse_json_string_array(string_from_chars(&v).as_str()) {
            Ok(items) => {
                append_strings(&mut config.extra_args, items);
                Ok(i + 2)
            },
            Err(e) => {
                let mut message = str_chars("--game-data-sync-extra-args must be a JSON array: ");
                append_str(&mut message, e.as_str());
                proof { reveal_strlit("--game-data-sync-extra-args must be a JSON array: "); }
                Err(string_from_chars(&message))
            },
        }
    } else if chars_eq_str(&arg, "--game-data-sync-config") {
        match value_after_exec(args, i, "--game-data-sync-config") {
            Ok(v) => {
                config.config_path = Some(string_from_chars(&v));
                Ok(i + 2)
            },
            Err(e) => Err(e),
        }
    } else if chars_eq_str(&arg, "--game-data-sync-command") {
        match value_after_exec(args, i, "--game-data-sync-command") {
            Ok(v) => {
                config.command = Some(string_from_chars(&v));
                Ok(i + 2)
            },
            Err(e) => Err(e),
        }
    } else if chars_eq_str(&arg, "--help") {
        config.help_requested = true;
        Ok(args.len())
    } else if starts_with(&arg, &str_chars("--game-data-sync")) {
        let mut message = str_chars("unknown game-data sync argument: ");
        append_chars(&mut message, &arg);
        proof {
            reveal_strlit("unknown game-data sync argument: ");
            reveal_strlit("--game-data-sync");
        }
        Err(string_from_chars(&message))
    } else {
        proof { reveal_strlit("--game-data-sync"); }
        Ok(i + 1)
    }
}

/// Reads the sync options from the command line (the program name left out). Other
/// arguments are ignored; an unknown sync flag, a missing or bad value is an error; `--help`
/// stops reading.
pub fn parse_game_data_sync_cli_args(args: Vec<String>) -> (r: Result<GameDataSyncCliConfig, String>)
    ensures
        match cli_parse_from(string_views(args@), 0, empty_cli()) {
            Ok(c) => r matches Ok(x) && x@ == c,
            Err(m) => r matches Err(e) && e@ == m,
        },
{
    let ghost views = string_views(args@);
    let mut config = GameDataSyncCliConfig::default();
    let mut i: usize = 0;
    while i < args.len()
        invariant
            i <= args@.len(),
            views == string_views(args@),
            cli_parse_from(views, 0, empty_cli()) == cli_parse_from(views, i as int, config@),
        decreases args@.len() - i,
    {
        let ghost before = config@;
        match cli_apply(&args, i, &mut config) {
            Ok(next) => {
                proof {
                    lemma_cli_step_advances(views, i as int, before);
                }
                i = next;
            },
            Err(e) => return Err(e),
        }
    }
    Ok(config)
}

proof fn lemma_cli_step_advances(args: Seq<Seq<char>>, i: int, c: CliView)
    requires
        0 <= i < args.len(),
    ensures
        cli_step(args, i, c) matches Ok((_, j)) ==> i < j <= args.len(),
{
}

impl GameDataSyncCliConfig {
    /// Whether the command line names anything to sync or how.
    pub fn has_sync_scope(&self) -> (r: bool)
        ensures
            r == (self.events@.len() > 0 || self.charts@.len() > 0 || self.player_files@.len() > 0
                || self.all_event_details is Some || self.all_charts is Some || self.all_card_details is Some
                || self.concurrency is Some || self.retries is Some || self.extra_args@.len() > 0),
    {
        self.events.len() > 0 || self.charts.len() > 0 || self.player_files.len() > 0
            || self.all_event_details.is_some() || self.all_charts.is_some() || self.all_card_details.is_some()
            || self.concurrency.is_some() || self.retries.is_some() || self.extra_args.len() > 0
    }

    /// Whether the command line names anything to sync.
    pub fn has_sync_scope_values(&self) -> (r: bool)
        ensures
            r == (self.events@.len() > 0 || self.charts@.len() > 0 || self.player_files@.len() > 0
                || self.all_event_details is Some || self.all_charts is Some || self.all_card_details is Some),
    {
        self.events.len() > 0 || self.charts.len() > 0 || self.player_files.len() > 0
            || self.all_event_details.is_some() || self.all_charts.is_some() || self.all_card_details.is_some()
    }
}

/// The sync options of the config file.
#[derive(Debug, Clone, PartialEq, Eq)]
pub struct GameDataSyncConfigFile {
    pub enabled: Option<bool>,
    pub interval_seconds: Option<u64>,
    pub out: Option<String>,
    pub base_url: Option<String>,
    pub repair_dir: Option<String>,
    pub events: Vec<u32>,
    pub charts: Vec<String>,
    pub player_files: Vec<String>,
    pub all_event_details: Option<bool>,
    pub all_charts: Option<bool>,
    pub all_card_details: Option<bool>,
    pub concurrency: Option<usize>,
    pub retries: Option<usize>,
    pub command: Option<String>,
    pub extra_args: Vec<String>,
}

/// Whether the config file names anything to sync or how.
pub open spec fn file_scope_spec(f: GameDataSyncConfigFile) -> bool {
    f.events@.len() > 0 || f.charts@.len() > 0 || f.player_files@.len() > 0
        || f.all_event_details is Some || f.all_charts is Some || f.all_card_details is Some
        || f.concurrency is Some || f.retries is Some || f.extra_args@.len() > 0
}

/// Whether the config file names anything to sync.
pub open spec fn file_scope_values_spec(f: GameDataSyncConfigFile) -> bool {
    f.events@.len() > 0 || f.charts@.len() > 0 || f.player_files@.len() > 0
        || f.all_event_details is Some || f.all_charts is Some || f.all_card_details is Some
}

/// Whether the config file names anything to sync or how.
pub fn file_has_sync_scope(config: &GameDataSyncConfigFile) -> (r: bool)
    ensures
        r == file_scope_spec(*config),
{
    config.events.len() > 0 || config.charts.len() > 0 || config.player_files.len() > 0
        || config.all_event_details.is_some() || config.all_charts.is_some() || config.all_card_details.is_some()
        || config.concurrency.is_some() || config.retries.is_some() || config.extra_args.len() > 0
}

/// Whether there is a config file and it names anything to sync.
pub fn has_sync_scope_values_from_file(config: Option<&GameDataSyncConfigFile>) -> (r: bool)
    ensures
        r == (match config { Some(f) => file_scope_values_spec(*f), None => false }),
{
    match config {
        None => false,
        Some(config) => config.events.len() > 0 || config.charts.len() > 0 || config.player_files.len() > 0
            || config.all_event_details.is_some() || config.all_charts.is_some() || config.all_card_details.is_some(),
    }
}

/// Each value preceded by `flag`.
pub open spec fn flag_values(flag: Seq<char>, values: Seq<Seq<char>>) -> Seq<Seq<char>>
    decreases values.len(),
{
    if values.len() == 0 {
        Seq::empty()
    } else {
        flag_values(flag, values.drop_last()) + seq![flag, values.last()]
    }
}

/// Event ids in decimal.
pub open spec fn event_strings(events: Seq<u32>) -> Seq<Seq<char>> {
    Seq::new(events.len(), |i: int| decimal_digits(events[i] as nat))
}

/// Charts as "song:difficulty".
pub open spec fn chart_strings(charts: Seq<(u32, u8)>) -> Seq<Seq<char>> {
    Seq::new(charts.len(), |i: int| decimal_digits(charts[i].0 as nat) + ":"@ + decimal_digits(charts[i].1 as nat))
}

/// A flag when the option is set to true.
pub open spec fn flag_if_true(flag: Seq<char>, value: Option<bool>) -> Seq<Seq<char>> {
    if value == Some(true) { seq![flag] } else { Seq::empty() }
}

/// A flag and its number when the option is set.
pub open spec fn flag_number(flag: Seq<char>, value: Option<usize>) -> Seq<Seq<char>> {
    match value {
        Some(n) => seq![flag, decimal_digits(n as nat)],
        None => Seq::empty(),
    }
}

/// The arguments of the sync command.
pub open spec fn command_args_spec(
    out: Seq<char>,
    base_url: Seq<char>,
    repair_dir: Option<Seq<char>>,
    events: Seq<u32>,
    charts: Seq<(u32, u8)>,
    player_files: Seq<Seq<char>>,
    all_event_details: Option<bool>,
    all_charts: Option<bool>,
    all_card_details: Option<bool>,
    concurrency: Option<usize>,
    retries: Option<usize>,
    extra_args: Seq<Seq<char>>,
) -> Seq<Seq<char>> {
    seq!["--out"@, out, "--base-url"@, base_url]
        + (match repair_dir { Some(d) => seq!["--repair-dir"@, d], None => Seq::empty() })
        + flag_values("--event"@, event_strings(events))
        + flag_values("--chart"@, chart_strings(charts))
        + flag_values("--player"@, player_files)
        + flag_if_true("--all-event-details"@, all_event_details)
        + flag_if_true("--all-charts"@, all_charts)
        + flag_if_true("--all-card-details"@, all_card_details)
        + flag_number("--concurrency"@, concurrency)
        + flag_number("--retries"@, retries)
        + extra_args
}

/// Some argument is blank.
pub open spec fn any_blank(args: Seq<Seq<char>>) -> bool {
    exists|i: int| 0 <= i < args.len() && #[trigger] trim_spec(args[i]).len() == 0
}

fn push_chars(args: &mut Vec<String>, value: &Vec<char>)
    ensures
        string_views(final(args)@) == string_views(old(args)@).push(value@),
{
    push_string(args, string_from_chars(value));
}

fn push_str(args: &mut Vec<String>, value: &str)
    ensures
        string_views(final(args)@) == string_views(old(args)@).push(value@),
{
    push_string(args, value.to_owned());
}

fn push_event_args(args: &mut Vec<String>, events: &[u32])
    ensures
        string_views(final(args)@) == string_views(old(args)@) + flag_values("--event"@, event_strings(events@)),
{
    let ghost start = string_views(args@);
    let mut k: usize = 0;
    while k < events.len()
        invariant
            k <= events@.len(),
            string_views(args@) == start + flag_values("--event"@, event_strings(events@.subrange(0, k as int))),
        decreases events@.len() - k,
    {
        push_str(args, "--event");
        let mut digits: Vec<char> = Vec::new();
        append_decimal(&mut digits, events[k] as u64);
        push_chars(args, &digits);
        proof {
            let sub = events@.subrange(0, k + 1);
            assert(event_strings(sub).drop_last() =~= event_strings(events@.subrange(0, k as int)));
            assert(event_strings(sub).last() == decimal_digits(events@[k as int] as nat));
            assert(string_views(args@) =~= start + flag_values("--event"@, event_strings(sub)));
        }
        k = k + 1;
    }
    proof { assert(events@.subrange(0, events@.len() as int) =~= events@); }
}

fn push_chart_args(args: &mut Vec<String>, charts: &[(u32, u8)])
    ensures
        string_views(final(args)@) == string_views(old(args)@) + flag_values("--chart"@, chart_strings(charts@)),
{
    let ghost start = string_views(args@);
    let mut k: usize = 0;
    while k < charts.len()
        invariant
            k <= charts@.len(),
            string_views(args@) == start + flag_values("--chart"@, chart_strings(charts@.subrange(0, k as int))),
        decreases charts@.len() - k,
    {
        push_str(args, "--chart");
        let mut text: Vec<char> = Vec::new();
        append_decimal(&mut text, charts[k].0 as u64);
        append_str(&mut text, ":");
        append_decimal(&mut text, charts[k].1 as u64);
        push_chars(args, &text);
        proof {
            reveal_strlit(":");
            let sub = charts@.subrange(0, k + 1);
            assert(chart_strings(sub).drop_last() =~= chart_strings(charts@.subrange(0, k as int)));
            assert(chart_strings(sub).last() == text@);
            assert(string_views(args@) =~= start + flag_values("--chart"@, chart_strings(sub)));
        }
        k = k + 1;
    }
    proof { assert(charts@.subrange(0, charts@.len() as int) =~= charts@); }
}

fn push_flagged_strings(args: &mut Vec<String>, flag: &str, values: &[String])
    ensures
        string_views(final(args)@) == string_views(old(args)@) + flag_values(flag@, string_views(values@)),
{
    let ghost start = string_views(args@);
    let mut k: usize = 0;
    while k < values.len()
        invariant
            k <= values@.len(),
            string_views(args@) == start + flag_values(flag@, string_views(values@).subrange(0, k as int)),
        decreases values@.len() - k,
    {
        push_str(args, flag);
        push_str(args, values[k].as_str());
        proof {
            let sub = string_views(values@).subrange(0, k + 1);
            assert(sub.drop_last() =~= string_views(values@).subrange(0, k as int));
            assert(string_views(args@) =~= start + flag_values(flag@, sub));
        }
        k = k + 1;
    }
    proof { assert(string_views(values@).subrange(0, values@.len() as int) =~= string_views(values@)); }
}

fn push_all_strings(args: &mut Vec<String>, values: &[String])
    ensures
        string_views(final(args)@) == string_views(old(args)@) + string_views(values@),
{
    let ghost start = string_views(args@);
    let mut k: usize = 0;
    while k < values.len()
        invariant
            k <= values@.len(),
            string_views(args@) == start + string_views(values@).subrange(0, k as int),
        decreases values@.len() - k,
    {
        push_str(args, values[k].as_str());
        proof {
            assert(string_views(values@).subrange(0, k + 1) =~= string_views(values@).subrange(0, k as int).push(values@[k as int]@));
        }
        k = k + 1;
    }
    proof { assert(string_views(values@).subrange(0, values@.len() as int) =~= string_views(values@)); }
}

fn push_number_arg(args: &mut Vec<String>, flag: &str, value: Option<usize>)
    ensures
        string_views(final(args)@) == string_views(old(args)@) + flag_number(flag@, value),
{
    match value {
        Some(n) => {
            push_str(args, flag);
            let mut digits: Vec<char> = Vec::new();
            append_decimal(&mut digits, n as u64);
            push_chars(args, &digits);
        },
        None => {},
    }
    proof { assert(string_views(args@) =~= string_views(old(args)@) + flag_number(flag@, value)); }
}

fn push_flag_if_true(args: &mut Vec<String>, flag: &str, value: Option<bool>)
    ensures
        string_views(final(args)@) == string_views(old(args)@) + flag_if_true(flag@, value),
{
    if value == Some(true) {
        push_str(args, flag);
    }
    proof { assert(string_views(args@) =~= string_views(old(args)@) + flag_if_true(flag@, value)); }
}

/// Whether some argument trims to nothing.
fn has_blank_arg(args: &Vec<String>) -> (b: bool)
    ensures
        b == any_blank(string_views(args@)),
{
    let mut k: usize = 0;
    while k < args.len()
        invariant
            k <= args@.len(),
            forall|q: int| 0 <= q < k ==> #[trigger] trim_spec(string_views(args@)[q]).len() > 0,
        decreases args@.len() - k,
    {
        if trim(&str_chars(args[k].as_str())).len() == 0 {
            assert(trim_spec(string_views(args@)[k as int]).len() == 0);
            return true;
        }
        k = k + 1;
    }
    false
}

/// Builds the sync command's arguments; fails when one of them is blank.
pub fn build_game_data_sync_command_args(
    out: &str,
    base_url: &str,
    repair_dir: Option<&str>,
    events: &[u32],
    charts: &[(u32, u8)],
    player_files: &[String],
    all_event_details: Option<bool>,
    all_charts: Option<bool>,
    all_card_details: Option<bool>,
    concurrency: Option<usize>,
    retries: Option<usize>,
    extra_args: &[String],
) -> (r: Result<Vec<String>, String>)
    ensures
        ({
            let args = command_args_spec(out@, base_url@, match repair_dir { Some(d) => Some(d@), None => None },
                events@, charts@, string_views(player_files@), all_event_details, all_charts, all_card_details,
                concurrency, retries, string_views(extra_args@));
            &&& any_blank(args) ==> (r matches Err(e) && e@ == "game-data sync command arguments must not be empty"@)
            &&& !any_blank(args) ==> (r matches Ok(v) && string_views(v@) == args)
        }),
{
    let mut args: Vec<String> = Vec::new();
    push_str(&mut args, "--out");
    push_str(&mut args, out);
    push_str(&mut args, "--base-url");
    push_str(&mut args, base_url);
    let ghost part0 = string_views(args@);
    proof { assert(part0 =~= seq!["--out"@, out@, "--base-url"@, base_url@]); }
    match repair_dir {
        Some(d) => {
            push_str(&mut args, "--repair-dir");
            push_str(&mut args, d);
        },
        None => {},
    }
    let ghost part1 = string_views(args@);
    proof {
        assert(part1 =~= part0 + (match repair_dir { Some(d) => seq!["--repair-dir"@, d@], None => Seq::<Seq<char>>::empty() }));
    }
    push_event_args(&mut args, events);
    push_chart_args(&mut args, charts);
    push_flagged_strings(&mut args, "--player", player_files);
    push_flag_if_true(&mut args, "--all-event-details", all_event_details);
    push_flag_if_true(&mut args, "--all-charts", all_charts);
    push_flag_if_true(&mut args, "--all-card-details", all_card_details);
    push_number_arg(&mut args, "--concurrency", concurrency);
    push_number_arg(&mut args, "--retries", retries);
    push_all_strings(&mut args, extra_args);
    proof {
        let expected = command_args_spec(out@, base_url@, match repair_dir { Some(d) => Some(d@), None => None },
            events@, charts@, string_views(player_files@), all_event_details, all_charts, all_card_details,
            concurrency, retries, string_views(extra_args@));
        assert(string_views(args@) =~= expected);
    }
    if has_blank_arg(&args) {
        proof { reveal_strlit("game-data sync command arguments must not be empty"); }
        return Err("game-data sync command arguments must not be empty".to_owned());
    }
    Ok(args)
}

} // verus!
