//! Settings, from the environment and from a file of `key=value` lines.
use crate::text::{
    find_char, finding_stops_at_the_first, from_chars, is_white_space, join_path, joined_path,
    lines, lines_of, lowered, number_in, opt_str, opt_text, parse_number, position_of, same, strip,
    stripped, texts, to_chars, to_lower, trim, trimmed, trimming_takes_all_outer_white_space,
};
use vstd::prelude::*;
use vstd::slice::slice_subrange;

verus! {

/// The settings of the monitor.
pub struct Config {
    pub openrgb_host: String,
    pub openrgb_port: u16,
    pub openrgb_device: Option<String>,
    pub aio_zone: Option<String>,
    pub aio_leds: Option<usize>,
    pub cpu_temp_zone: Option<String>,
    pub gpu_temp_zone: Option<String>,
}

/// The values of the environment variables that settings are taken from.
pub struct Environment {
    pub openrgb_host: Option<String>,
    pub openrgb_port: Option<String>,
    pub openrgb_device: Option<String>,
    pub aio_zone: Option<String>,
    pub aio_leds: Option<String>,
    pub cpu_temp_zone: Option<String>,
    pub gpu_temp_zone: Option<String>,
}

// ---------------------------------------------------------------------------
// The file
// ---------------------------------------------------------------------------
/// What a line sets: a key in lower case to a value without the quotes around it. Blank
/// lines, comments, lines without `=` and lines with an empty key or value set nothing.
pub open spec fn entry_in(line: Seq<char>) -> Option<(Seq<char>, Seq<char>)> {
    let t = trimmed(line);
    let i = find_char(t, '=') as int;
    if t.len() == 0 || t[0] == '#' || i >= t.len() {
        None
    } else {
        let key = lowered(trimmed(t.take(i)));
        let value = stripped(stripped(trimmed(t.skip(i + 1)), '"'), '\'');
        if key.len() == 0 || value.len() == 0 {
            None
        } else {
            Some((key, value))
        }
    }
}

/// What the lines of a file set. Where several set the same key, the last does.
pub open spec fn entries_in(lines: Seq<Seq<char>>) -> Map<Seq<char>, Seq<char>>
    decreases lines.len(),
{
    if lines.len() == 0 {
        Map::empty()
    } else {
        let earlier = entries_in(lines.drop_last());
        match entry_in(lines.last()) {
            Some((key, value)) => earlier.insert(key, value),
            None => earlier,
        }
    }
}

/// What a file sets; without a file, nothing is set.
pub open spec fn file_settings(content: Option<Seq<char>>) -> Map<Seq<char>, Seq<char>> {
    match content {
        Some(content) => entries_in(lines_of(content)),
        None => Map::empty(),
    }
}

/// The keys and values of a file, in the order of its lines.
pub struct FileValues {
    pub entries: Vec<(String, String)>,
}

/// What a list of keys and values sets.
pub open spec fn as_map(entries: Seq<(String, String)>) -> Map<Seq<char>, Seq<char>>
    decreases entries.len(),
{
    if entries.len() == 0 {
        Map::empty()
    } else {
        as_map(entries.drop_last()).insert(entries.last().0@, entries.last().1@)
    }
}

impl View for FileValues {
    type V = Map<Seq<char>, Seq<char>>;

    open spec fn view(&self) -> Map<Seq<char>, Seq<char>> {
        as_map(self.entries@)
    }
}

/// The value of `key`, if it has one.
pub open spec fn value_of(settings: Map<Seq<char>, Seq<char>>, key: Seq<char>) -> Option<
    Seq<char>,
> {
    if settings.contains_key(key) {
        Some(settings[key])
    } else {
        None
    }
}

impl FileValues {
    /// The value that was set last for `key`.
    pub fn get(&self, key: &str) -> (r: Option<String>)
        ensures
            opt_text(r) == value_of(self@, key@),
    {
        let wanted = to_chars(key);
        let mut n: usize = self.entries.len();
        assert(self.entries@.take(n as int) =~= self.entries@);
        while n > 0
            invariant
                wanted@ == key@,
                n <= self.entries.len(),
                value_of(as_map(self.entries@.take(n as int)), key@) == value_of(self@, key@),
            decreases n,
        {
            assert(self.entries@.take(n as int).drop_last() =~= self.entries@.take(n - 1));
            let entry = &self.entries[n - 1];
            let entry_key = to_chars(entry.0.as_str());
            if same(entry_key.as_slice(), wanted.as_slice()) {
                return Some(entry.1.clone());
            }
            n -= 1;
        }
        None
    }
}

/// Reads a line: the key and the value that it sets.
fn parse_entry(line: &[char]) -> (r: Option<(String, String)>)
    ensures
        match r {
            Some((key, value)) => entry_in(line@) == Some((key@, value@)),
            None => entry_in(line@) is None,
        },
{
    let t = trim(line);
    if t.len() == 0 || t[0] == '#' {
        return None;
    }
    let i: usize = position_of(t, '=');
    if i >= t.len() {
        return None;
    }
    let left = slice_subrange(t, 0, i);
    let right = slice_subrange(t, i + 1, t.len());
    assert(left@ =~= t@.take(i as int));
    assert(right@ =~= t@.skip(i + 1));
    let key = to_lower(trim(left));
    let value = strip(strip(trim(right), '"'), '\'');
    if key.len() == 0 || value.len() == 0 {
        return None;
    }
    Some((from_chars(key.as_slice()), from_chars(value)))
}

/// Reads what a file sets; without a file, nothing is set.
pub fn load_config_file(content: Option<&str>) -> (r: FileValues)
    ensures
        r@ == file_settings(opt_str(content)),
{
    let mut entries: Vec<(String, String)> = Vec::new();
    let content = match content {
        Some(content) => content,
        None => {
            return FileValues { entries };
        },
    };
    let chars = to_chars(content);
    let all = lines(chars.as_slice());
    let ghost all_lines = lines_of(content@);
    let mut i: usize = 0;
    assert(texts(all@).len() == all@.len());
    assert(all_lines.take(0) =~= Seq::<Seq<char>>::empty());
    while i < all.len()
        invariant
            i <= all.len(),
            texts(all@) == all_lines,
            as_map(entries@) == entries_in(all_lines.take(i as int)),
        decreases all.len() - i,
    {
        assert(texts(all@)[i as int] == all@[i as int]@);
        assert(all_lines.take(i + 1).drop_last() =~= all_lines.take(i as int));
        let ghost before_push = entries@;
        if let Some((key, value)) = parse_entry(all[i]) {
            entries.push((key, value));
            assert(entries@.drop_last() =~= before_push);
        }
        i += 1;
    }
    assert(all_lines.take(i as int) =~= all_lines);
    FileValues { entries }
}

/// Where the file is looked for: at the given place, unless that is blank, or else in the
/// home directory.
pub open spec fn config_place(place: Option<Seq<char>>, home: Option<Seq<char>>) -> Option<
    Seq<char>,
> {
    match (place, home) {
        (Some(place), _) if trimmed(place).len() > 0 => Some(trimmed(place)),
        (_, Some(home)) => Some(joined_path(home, ".config/sysmon/config.env"@)),
        (_, None) => None,
    }
}

/// Where the file is looked for. `place` and `home` are the values of `SYSMON_CONFIG` and
/// `HOME`.
pub fn config_path(place: Option<&str>, home: Option<&str>) -> (r: Option<String>)
    ensures
        opt_text(r) == config_place(opt_str(place), opt_str(home)),
{
    if let Some(place) = place {
        let chars = to_chars(place);
        let t = trim(chars.as_slice());
        if t.len() > 0 {
            return Some(from_chars(t));
        }
    }
    match home {
        Some(home) => Some(join_path(home, ".config/sysmon/config.env")),
        None => None,
    }
}

// ---------------------------------------------------------------------------
// Settings
// ---------------------------------------------------------------------------
/// The text of a setting: from the environment unless it is blank there, or else from
/// the file.
pub open spec fn text_setting(
    env: Option<Seq<char>>,
    file: Map<Seq<char>, Seq<char>>,
    key: Seq<char>,
) -> Option<Seq<char>> {
    match env {
        Some(value) if trimmed(value).len() > 0 => Some(value),
        _ => value_of(file, key),
    }
}

/// The number of a setting, no more than `max`: from the environment, or else from the
/// file. What is no such number counts as not set.
pub open spec fn number_setting(
    env: Option<Seq<char>>,
    file: Map<Seq<char>, Seq<char>>,
    key: Seq<char>,
    max: nat,
) -> Option<nat> {
    let text = match env {
        Some(value) => Some(value),
        None => value_of(file, key),
    };
    match text {
        Some(text) => number_in(text, max),
        None => None,
    }
}

/// A text that may be set.
pub fn optional_string_value(file_values: &FileValues, file_key: &str, env: &Option<String>) -> (r:
    Option<String>)
    ensures
        opt_text(r) == text_setting(opt_text(*env), file_values@, file_key@),
{
    if let Some(value) = env {
        let chars = to_chars(value.as_str());
        if trim(chars.as_slice()).len() > 0 {
            return Some(value.clone());
        }
    }
    file_values.get(file_key)
}

/// A text that is `default` unless it is set.
pub fn string_value(
    file_values: &FileValues,
    file_key: &str,
    env: &Option<String>,
    default: &str,
) -> (r: String)
    ensures
        r@ == (match text_setting(opt_text(*env), file_values@, file_key@) {
            Some(value) => value,
            None => default@,
        }),
{
    match optional_string_value(file_values, file_key, env) {
        Some(value) => value,
        None => default.to_string(),
    }
}

fn optional_number(
    file_values: &FileValues,
    file_key: &str,
    env: &Option<String>,
    max: u64,
) -> (r: Option<u64>)
    ensures
        match r {
            Some(n) => number_setting(opt_text(*env), file_values@, file_key@, max as nat) == Some(
                n as nat,
            ) && n <= max,
            None => number_setting(opt_text(*env), file_values@, file_key@, max as nat) is None,
        },
{
    let text = match env {
        Some(value) => Some(value.clone()),
        None => file_values.get(file_key),
    };
    match text {
        Some(text) => {
            let chars = to_chars(text.as_str());
            parse_number(chars.as_slice(), max)
        },
        None => None,
    }
}

/// A number of 16 bits that is `default` unless it is set.
pub fn u16_value(
    file_values: &FileValues,
    file_key: &str,
    env: &Option<String>,
    default: u16,
) -> (r: u16)
    ensures
        r == (match number_setting(
            opt_text(*env),
            file_values@,
            file_key@,
            u16::MAX as nat,
        ) {
            Some(n) => n,
            None => default as nat,
        }),
{
    match optional_number(file_values, file_key, env, u16::MAX as u64) {
        Some(n) => n as u16,
        None => default,
    }
}

/// A number that may be set.
pub fn optional_usize_value(file_values: &FileValues, file_key: &str, env: &Option<String>) -> (r:
    Option<usize>)
    ensures
        match r {
            Some(n) => number_setting(
                opt_text(*env),
                file_values@,
                file_key@,
                usize::MAX as nat,
            ) == Some(n as nat),
            None => number_setting(
                opt_text(*env),
                file_values@,
                file_key@,
                usize::MAX as nat,
            ) is None,
        },
{
    match optional_number(file_values, file_key, env, usize::MAX as u64) {
        Some(n) => Some(n as usize),
        None => None,
    }
}

impl Config {
    /// The settings that the environment and the content of the file give.
    pub open spec fn loaded_from(
        self,
        env: Environment,
        file: Map<Seq<char>, Seq<char>>,
    ) -> bool {
        &&& self.openrgb_host@ == (match text_setting(
            opt_text(env.openrgb_host),
            file,
            "openrgb_host"@,
        ) {
            Some(host) => host,
            None => "127.0.0.1"@,
        })
        &&& self.openrgb_port == (match number_setting(
            opt_text(env.openrgb_port),
            file,
            "openrgb_port"@,
            u16::MAX as nat,
        ) {
            Some(port) => port,
            None => 6742,
        })
        &&& opt_text(self.openrgb_device) == text_setting(
            opt_text(env.openrgb_device),
            file,
            "openrgb_device"@,
        )
        &&& opt_text(self.aio_zone) == text_setting(opt_text(env.aio_zone), file, "aio_zone"@)
        &&& number_setting(opt_text(env.aio_leds), file, "aio_leds"@, usize::MAX as nat) == (
        match self.aio_leds {
            Some(n) => Some(n as nat),
            None => None,
        })
        &&& opt_text(self.cpu_temp_zone) == text_setting(
            opt_text(env.cpu_temp_zone),
            file,
            "cpu_temp_zone"@,
        )
        &&& opt_text(self.gpu_temp_zone) == text_setting(
            opt_text(env.gpu_temp_zone),
            file,
            "gpu_temp_zone"@,
        )
    }

    /// The settings that the environment and the content of the file give.
    pub fn load(env: &Environment, file: Option<&str>) -> (r: Self)
        ensures
            r.loaded_from(*env, file_settings(opt_str(file))),
    {
        let file_values = load_config_file(file);
        Self {
            openrgb_host: string_value(
                &file_values,
                "openrgb_host",
                &env.openrgb_host,
                "127.0.0.1",
            ),
            openrgb_port: u16_value(&file_values, "openrgb_port", &env.openrgb_port, 6742),
            openrgb_device: optional_string_value(
                &file_values,
                "openrgb_device",
                &env.openrgb_device,
            ),
            aio_zone: optional_string_value(&file_values, "aio_zone", &env.aio_zone),
            aio_leds: optional_usize_value(&file_values, "aio_leds", &env.aio_leds),
            cpu_temp_zone: optional_string_value(
                &file_values,
                "cpu_temp_zone",
                &env.cpu_temp_zone,
            ),
            gpu_temp_zone: optional_string_value(
                &file_values,
                "gpu_temp_zone",
                &env.gpu_temp_zone,
            ),
        }
    }
}

/// Environment variables win: what they set does not depend on the file. A text that is
/// blank counts as not set.
pub proof fn environment_wins(
    value: Seq<char>,
    file: Map<Seq<char>, Seq<char>>,
    other_file: Map<Seq<char>, Seq<char>>,
    key: Seq<char>,
    max: nat,
)
    ensures
        trimmed(value).len() > 0 ==> text_setting(Some(value), file, key) == Some(value),
        number_setting(Some(value), file, key, max) == number_in(value, max),
        number_setting(Some(value), file, key, max) == number_setting(
            Some(value),
            other_file,
            key,
            max,
        ),
{
}

/// A line that sets a key overrides what earlier lines set it to, and leaves the other keys
/// as they were.
pub proof fn later_lines_win(lines: Seq<Seq<char>>, line: Seq<char>, other: Seq<char>)
    requires
        entry_in(line) is Some,
    ensures
        ({
            let (key, value) = entry_in(line)->Some_0;
            let settings = entries_in(lines.push(line));
            &&& value_of(settings, key) == Some(value)
            &&& other != key ==> value_of(settings, other) == value_of(entries_in(lines), other)
        }),
{
    assert(lines.push(line).drop_last() =~= lines);
}

/// Blank lines and comments set nothing.
pub proof fn comments_set_nothing(lines: Seq<Seq<char>>, line: Seq<char>)
    requires
        trimmed(line).len() == 0 || trimmed(line)[0] == '#',
    ensures
        entries_in(lines.push(line)) == entries_in(lines),
{
    assert(lines.push(line).drop_last() =~= lines);
}

// ---------------------------------------------------------------------------
// What each setting is
// ---------------------------------------------------------------------------
/// `value` is what a text setting has to be: what its variable holds unless that is blank, or else
/// what the file sets its key to, or else nothing.
pub open spec fn is_right_text(
    value: Option<Seq<char>>,
    variable: Option<String>,
    file: Map<Seq<char>, Seq<char>>,
    key: Seq<char>,
) -> bool {
    if variable is Some && trimmed(variable->Some_0@).len() > 0 {
        value == Some(variable->Some_0@)
    } else if file.contains_key(key) {
        value == Some(file[key])
    } else {
        value is None
    }
}

/// `value` is what a number setting of at most `max` has to be: the number that its variable
/// holds, if there is the variable, or else the one that the file sets its key to.
pub open spec fn is_right_number(
    value: Option<nat>,
    variable: Option<String>,
    file: Map<Seq<char>, Seq<char>>,
    key: Seq<char>,
    max: nat,
) -> bool {
    if variable is Some {
        value == number_in(variable->Some_0@, max)
    } else if file.contains_key(key) {
        value == number_in(file[key], max)
    } else {
        value is None
    }
}

/// Every setting comes from its own environment variable, whatever the file says, and where that
/// does not set it from its own key in the file. Without either the host is `127.0.0.1`, the port
/// is 6742 and the others are not set.
pub proof fn every_setting_has_its_own_source(
    config: Config,
    env: Environment,
    file: Map<Seq<char>, Seq<char>>,
)
    requires
        config.loaded_from(env, file),
    ensures
        is_right_text(Some(config.openrgb_host@), env.openrgb_host, file, "openrgb_host"@) || (
        is_right_text(None, env.openrgb_host, file, "openrgb_host"@) && config.openrgb_host@
            == "127.0.0.1"@),
        is_right_number(
            Some(config.openrgb_port as nat),
            env.openrgb_port,
            file,
            "openrgb_port"@,
            65_535,
        ) || (is_right_number(None, env.openrgb_port, file, "openrgb_port"@, 65_535)
            && config.openrgb_port == 6742),
        config.openrgb_device matches Some(s) ==> is_right_text(
            Some(s@),
            env.openrgb_device,
            file,
            "openrgb_device"@,
        ),
        config.openrgb_device is None ==> is_right_text(
            None,
            env.openrgb_device,
            file,
            "openrgb_device"@,
        ),
        config.aio_zone matches Some(s) ==> is_right_text(
            Some(s@),
            env.aio_zone,
            file,
            "aio_zone"@,
        ),
        config.aio_zone is None ==> is_right_text(None, env.aio_zone, file, "aio_zone"@),
        config.aio_leds matches Some(n) ==> is_right_number(
            Some(n as nat),
            env.aio_leds,
            file,
            "aio_leds"@,
            usize::MAX as nat,
        ),
        config.aio_leds is None ==> is_right_number(
            None,
            env.aio_leds,
            file,
            "aio_leds"@,
            usize::MAX as nat,
        ),
        config.cpu_temp_zone matches Some(s) ==> is_right_text(
            Some(s@),
            env.cpu_temp_zone,
            file,
            "cpu_temp_zone"@,
        ),
        config.cpu_temp_zone is None ==> is_right_text(
            None,
            env.cpu_temp_zone,
            file,
            "cpu_temp_zone"@,
        ),
        config.gpu_temp_zone matches Some(s) ==> is_right_text(
            Some(s@),
            env.gpu_temp_zone,
            file,
            "gpu_temp_zone"@,
        ),
        config.gpu_temp_zone is None ==> is_right_text(
            None,
            env.gpu_temp_zone,
            file,
            "gpu_temp_zone"@,
        ),
{
}

/// All characters of the text are white space.
pub open spec fn is_blank(s: Seq<char>) -> bool {
    forall|i: int| 0 <= i < s.len() ==> is_white_space(#[trigger] s[i])
}

/// The text neither begins nor ends with white space, and is not empty.
pub open spec fn is_bare(s: Seq<char>) -> bool {
    s.len() > 0 && !is_white_space(s[0]) && !is_white_space(s.last())
}

proof fn lemma_no_equals(s: Seq<char>)
    requires
        is_blank(s),
    ensures
        !s.contains('='),
{
    if s.contains('=') {
        let k = choose|k: int| 0 <= k < s.len() && s[k] == '=';
        assert(is_white_space(s[k]));
    }
}

/// A line that has a key, an equals sign and a value, with or without white space around each, sets
/// the key in lower case to the value without double quotes and then single quotes around it,
/// unless nothing is left of the value. A line without a value sets nothing.
pub proof fn a_line_sets_its_key_to_its_value(
    a: Seq<char>,
    key: Seq<char>,
    b: Seq<char>,
    c: Seq<char>,
    value: Seq<char>,
    d: Seq<char>,
)
    requires
        is_blank(a),
        is_blank(b),
        is_blank(c),
        is_blank(d),
        is_bare(key),
        is_bare(value),
        key[0] != '#',
        !key.contains('='),
    ensures
        ({
            let content = stripped(stripped(value, '"'), '\'');
            entry_in(a + (key + b + seq!['='] + c + value) + d) == if content.len() > 0 {
                Some((lowered(key), content))
            } else {
                None
            }
        }),
        entry_in(a + (key + b + seq!['=']) + d) is None,
        entry_in(a + (seq!['='] + c + value) + d) is None,
        entry_in(a + key + d) is None,
{
    let none = Seq::<char>::empty();
    let left = key + b;
    lemma_no_equals(b);
    assert(!left.contains('=')) by {
        if left.contains('=') {
            let k = choose|k: int| 0 <= k < left.len() && left[k] == '=';
            if k < key.len() {
                assert(key[k] == '=');
            } else {
                assert(b[k - key.len()] == '=');
            }
        }
    }
    assert(none + key + b =~= left);
    trimming_takes_all_outer_white_space(none, key, b);

    // A key and a value.
    let right = c + value;
    let s = key + b + seq!['='] + c + value;
    assert(s =~= left.push('=') + right);
    assert(s[0] == key[0]);
    assert(s.last() == value.last());
    trimming_takes_all_outer_white_space(a, s, d);
    lemma_found(left, right);
    assert(s.take(left.len() as int) =~= left);
    assert(s.skip(left.len() as int + 1) =~= right);
    assert(c + value + none =~= right);
    trimming_takes_all_outer_white_space(c, value, none);

    // A key alone.
    let t = key + b + seq!['='];
    assert(t =~= left.push('=') + none);
    assert(t[0] == key[0]);
    assert(t.last() == '=');
    trimming_takes_all_outer_white_space(a, t, d);
    lemma_found(left, none);
    assert(t.skip(left.len() as int + 1) =~= none);
    assert(trimmed(none) == none);
    assert(stripped(none, '"') == none);
    assert(stripped(none, '\'') == none);

    // A value alone.
    let u = seq!['='] + c + value;
    assert(u =~= none.push('=') + right);
    assert(u[0] == '=');
    assert(u.last() == value.last());
    trimming_takes_all_outer_white_space(a, u, d);
    lemma_found(none, right);
    assert(u.take(0) =~= none);

    // Neither.
    trimming_takes_all_outer_white_space(a, key, d);
    lemma_found(key, none);
}

proof fn lemma_found(left: Seq<char>, right: Seq<char>)
    requires
        !left.contains('='),
    ensures
        find_char(left.push('=') + right, '=') == left.len(),
        find_char(left, '=') == left.len(),
{
    let s = left.push('=') + right;
    finding_stops_at_the_first(s, '=');
    finding_stops_at_the_first(left, '=');
    let n = find_char(s, '=') as int;
    assert(s[left.len() as int] == '=');
    if n < left.len() {
        assert(left[n] == '=');
    }
    let m = find_char(left, '=') as int;
    if m < left.len() {
        assert(left[m] == '=');
    }
}

/// The line sets the key.
pub open spec fn sets_key(line: Seq<char>, key: Seq<char>) -> bool {
    entry_in(line) is Some && entry_in(line)->Some_0.0 == key
}

/// The value of a key is that of the last line of the file that sets it; where none does, or where
/// there is no file, it has none.
pub proof fn the_last_line_that_sets_a_key_counts(content: Seq<char>, key: Seq<char>, i: int)
    ensures
        ({
            let lines = lines_of(content);
            let value = value_of(file_settings(Some(content)), key);
            &&& 0 <= i < lines.len() && sets_key(lines[i], key) && (forall|j: int|
                i < j < lines.len() ==> !sets_key(#[trigger] lines[j], key)) ==> value == Some(
                entry_in(lines[i])->Some_0.1,
            )
            &&& (forall|j: int| 0 <= j < lines.len() ==> !sets_key(#[trigger] lines[j], key))
                ==> value is None
        }),
        value_of(file_settings(None), key) is None,
{
    lemma_last_line(lines_of(content), key, i);
}

proof fn lemma_last_line(lines: Seq<Seq<char>>, key: Seq<char>, i: int)
    ensures
        ({
            let value = value_of(entries_in(lines), key);
            &&& 0 <= i < lines.len() && sets_key(lines[i], key) && (forall|j: int|
                i < j < lines.len() ==> !sets_key(#[trigger] lines[j], key)) ==> value == Some(
                entry_in(lines[i])->Some_0.1,
            )
            &&& (forall|j: int| 0 <= j < lines.len() ==> !sets_key(#[trigger] lines[j], key))
                ==> value is None
        }),
    decreases lines.len(),
{
    if lines.len() > 0 {
        let front = lines.drop_last();
        let n = lines.len() - 1;
        lemma_last_line(front, key, i);
        assert forall|j: int| 0 <= j < n implies #[trigger] front[j] == lines[j] by {}
        assert(lines.last() == lines[n]);
        if forall|j: int| 0 <= j < lines.len() ==> !sets_key(#[trigger] lines[j], key) {
            assert(forall|j: int| 0 <= j < front.len() ==> !sets_key(#[trigger] front[j], key));
            assert(!sets_key(lines[n], key));
        }
        if 0 <= i < n && (forall|j: int|
            i < j < lines.len() ==> !sets_key(#[trigger] lines[j], key)) {
            assert(front[i] == lines[i]);
            assert(!sets_key(lines[n], key));
            assert(forall|j: int| i < j < front.len() ==> !sets_key(#[trigger] front[j], key));
        }
    }
}

/// The value of a key is what a map has for it.
pub proof fn values_are_those_of_the_map(settings: Map<Seq<char>, Seq<char>>, key: Seq<char>)
    ensures
        settings.contains_key(key) ==> value_of(settings, key) == Some(settings[key]),
        !settings.contains_key(key) ==> value_of(settings, key) is None,
{
}

/// The file is the one that is named, unless the name is blank, or else `.config/sysmon/config.env`
/// in the home directory, if that is known.
pub proof fn the_file_is_where_it_is_named(place: Option<Seq<char>>, home: Option<Seq<char>>)
    ensures
        place is Some && trimmed(place->Some_0).len() > 0 ==> config_place(place, home) == Some(
            trimmed(place->Some_0),
        ),
        place is None || trimmed(place->Some_0).len() == 0 ==> match home {
            Some(dir) => config_place(place, home) == Some(
                joined_path(dir, ".config/sysmon/config.env"@),
            ),
            None => config_place(place, home) is None,
        },
{
}

} // verus!
