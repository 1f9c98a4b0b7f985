//! Build metrics of a host, kept by name and written out as JSON.
use vstd::prelude::*;
use crate::json::{
    Json, JsonState, put, after_begin_object, after_begin_array, after_field, after_string,
    after_number, empty_json,
};

verus! {

/// Whether `a` sorts before `b`: character by character, a proper prefix
/// first.
pub open spec fn str_lt(a: Seq<char>, b: Seq<char>) -> bool
    decreases a.len(),
{
    if a.len() == 0 {
        b.len() > 0
    } else if b.len() == 0 {
        false
    } else if a[0] != b[0] {
        (a[0] as u32) < (b[0] as u32)
    } else {
        str_lt(a.drop_first(), b.drop_first())
    }
}

proof fn lemma_str_lt_irreflexive(a: Seq<char>)
    ensures
        !str_lt(a, a),
    decreases a.len(),
{
    if a.len() > 0 {
        lemma_str_lt_irreflexive(a.drop_first());
    }
}

/// How two strings compare.
pub enum Order {
    Less,
    Equal,
    Greater,
}

/// Compares two strings character by character.
pub fn compare_str(a: &str, b: &str) -> (r: Order)
    ensures
        r is Less <==> str_lt(a@, b@),
        r is Equal <==> a@ == b@,
        r is Greater <==> str_lt(b@, a@),
{
    let n = a.unicode_len();
    let m = b.unicode_len();
    let mut i: usize = 0;
    assert(a@.skip(0) =~= a@);
    assert(b@.skip(0) =~= b@);
    while i < n && i < m
        invariant
            n == a@.len(),
            m == b@.len(),
            i <= n,
            i <= m,
            a@.take(i as int) == b@.take(i as int),
            str_lt(a@, b@) == str_lt(a@.skip(i as int), b@.skip(i as int)),
            str_lt(b@, a@) == str_lt(b@.skip(i as int), a@.skip(i as int)),
        decreases n - i,
    {
        let x = a.get_char(i);
        let y = b.get_char(i);
        if x != y {
            assert(a@ != b@ && a@.skip(i as int)[0] == x && b@.skip(i as int)[0] == y);
            if (x as u32) < (y as u32) {
                return Order::Less;
            } else {
                return Order::Greater;
            }
        }
        assert(a@.skip(i as int).drop_first() =~= a@.skip(i as int + 1));
        assert(b@.skip(i as int).drop_first() =~= b@.skip(i as int + 1));
        assert(a@.take(i as int + 1) =~= a@.take(i as int).push(x));
        assert(b@.take(i as int + 1) =~= b@.take(i as int).push(y));
        i = i + 1;
    }
    if i < m {
        assert(a@ != b@ && a@.skip(i as int).len() == 0 && b@.skip(i as int).len() > 0);
        Order::Less
    } else if i < n {
        assert(a@ != b@ && b@.skip(i as int).len() == 0 && a@.skip(i as int).len() > 0);
        Order::Greater
    } else {
        assert(a@ =~= a@.take(i as int));
        assert(b@ =~= b@.take(i as int));
        assert(a@.skip(i as int).len() == 0 && b@.skip(i as int).len() == 0);
        Order::Equal
    }
}

/// The index of the first line feed in `s` at or after `i`, or the length
/// of `s` where there is none.
pub open spec fn next_newline(s: Seq<char>, i: int) -> int
    decreases s.len() - i,
{
    if i >= s.len() || i < 0 {
        s.len() as int
    } else if s[i] == '\n' {
        i
    } else {
        next_newline(s, i + 1)
    }
}

/// The line of `s` that starts at `i`: up to the next line feed, without a
/// carriage return right before it.
pub open spec fn line_at(s: Seq<char>, i: int) -> Seq<char> {
    let e = next_newline(s, i);
    if e < s.len() && e > i && s[e - 1] == '\r' {
        s.subrange(i, e - 1)
    } else {
        s.subrange(i, e)
    }
}

/// What follows `field` on the first line, from the one at `i` on, that
/// starts with `field`.
pub open spec fn field_after(s: Seq<char>, field: Seq<char>, i: int) -> Option<Seq<char>>
    decreases s.len() - i,
{
    if i >= s.len() || i < 0 {
        None
    } else {
        let line = line_at(s, i);
        if field.len() <= line.len() && line.take(field.len() as int) == field {
            Some(line.skip(field.len() as int))
        } else {
            let e = next_newline(s, i);
            if e < i || e >= s.len() {
                None
            } else {
                field_after(s, field, e + 1)
            }
        }
    }
}

/// `s` without the characters `c` at its start.
pub open spec fn trim_start_char(s: Seq<char>, c: char) -> Seq<char>
    decreases s.len(),
{
    if s.len() > 0 && s[0] == c {
        trim_start_char(s.drop_first(), c)
    } else {
        s
    }
}

/// `s` without the characters `c` at its end.
pub open spec fn trim_end_char(s: Seq<char>, c: char) -> Seq<char>
    decreases s.len(),
{
    if s.len() > 0 && s.last() == c {
        trim_end_char(s.drop_last(), c)
    } else {
        s
    }
}

/// Whether `c` has the Unicode `White_Space` property, as
/// `char::is_whitespace` tells.
pub open spec fn is_white_space(c: char) -> bool {
    let u = c as u32;
    ||| 0x9 <= u <= 0xd
    ||| u == 0x20
    ||| u == 0x85
    ||| u == 0xa0
    ||| u == 0x1680
    ||| 0x2000 <= u <= 0x200a
    ||| u == 0x2028
    ||| u == 0x2029
    ||| u == 0x202f
    ||| u == 0x205f
    ||| u == 0x3000
}

/// `s` without the white space at its start.
pub open spec fn trim_start_white(s: Seq<char>) -> Seq<char>
    decreases s.len(),
{
    if s.len() > 0 && is_white_space(s[0]) {
        trim_start_white(s.drop_first())
    } else {
        s
    }
}

/// `s` without the white space at its end.
pub open spec fn trim_end_white(s: Seq<char>) -> Seq<char>
    decreases s.len(),
{
    if s.len() > 0 && is_white_space(s.last()) {
        trim_end_white(s.drop_last())
    } else {
        s
    }
}

/// `s` without the white space at either end.
pub open spec fn trimmed(s: Seq<char>) -> Seq<char> {
    trim_end_white(trim_start_white(s))
}

/// Relies on `str::trim`: the white space, as `char::is_whitespace` tells,
/// leaves both ends.
#[verifier::external_body]
fn trim(s: &str) -> (r: String)
    ensures
        r@ == trimmed(s@),
{
    s.trim().to_string()
}

/// The index of the first line feed in `s` at or after `i`.
fn find_newline(s: &str, n: usize, i: usize) -> (r: usize)
    requires
        n == s@.len(),
        i <= n,
    ensures
        r == next_newline(s@, i as int),
        i <= r <= n,
{
    let mut j = i;
    while j < n
        invariant
            n == s@.len(),
            i <= j <= n,
            next_newline(s@, i as int) == next_newline(s@, j as int),
        decreases n - j,
    {
        if s.get_char(j) == '\n' {
            return j;
        }
        j = j + 1;
    }
    j
}

/// What follows `field`, trimmed, on the first line of `text` that starts
/// with `field`.
pub fn read_field(text: &str, field: &str) -> (r: Option<String>)
    ensures
        r is None <==> field_after(text@, field@, 0) is None,
        r is Some ==> r->0@ == trimmed(field_after(text@, field@, 0)->0),
{
    let n = text.unicode_len();
    let m = field.unicode_len();
    let mut i: usize = 0;
    while i < n
        invariant
            n == text@.len(),
            m == field@.len(),
            i <= n,
            field_after(text@, field@, 0) == field_after(text@, field@, i as int),
        decreases n - i,
    {
        let e = find_newline(text, n, i);
        let end = if e < n && e > i && text.get_char(e - 1) == '\r' {
            e - 1
        } else {
            e
        };
        let line = text.substring_char(i, end);
        assert(line@ == line_at(text@, i as int));
        if m <= end - i && matches!(compare_str(line.substring_char(0, m), field), Order::Equal) {
            let rest = line.substring_char(m, end - i);
            assert(rest@ =~= line@.skip(m as int));
            return Some(trim(rest));
        }
        assert(!(m <= line@.len() && line@.take(m as int) == field@)) by {
            if m <= line@.len() {
                assert(line@.take(m as int) =~= line@.subrange(0, m as int));
            }
        }
        if e >= n {
            return None;
        }
        i = e + 1;
    }
    None
}

/// Removes the characters `c` at the start.
fn trim_start_matches(s: &str, c: char) -> (r: &str)
    ensures
        r@ == trim_start_char(s@, c),
{
    let n = s.unicode_len();
    let mut a: usize = 0;
    assert(s@.skip(0) =~= s@);
    while a < n && s.get_char(a) == c
        invariant
            n == s@.len(),
            a <= n,
            trim_start_char(s@, c) == trim_start_char(s@.skip(a as int), c),
        decreases n - a,
    {
        assert(s@.skip(a as int).drop_first() =~= s@.skip(a as int + 1));
        a = a + 1;
    }
    assert(trim_start_char(s@, c) == s@.skip(a as int));
    s.substring_char(a, n)
}

/// Removes the characters `c` at both ends.
fn trim_matches(s: &str, c: char) -> (r: &str)
    ensures
        r@ == trim_end_char(trim_start_char(s@, c), c),
{
    let t = trim_start_matches(s, c);
    let n = t.unicode_len();
    let mut b: usize = n;
    assert(t@.subrange(0, n as int) =~= t@);
    while b > 0 && t.get_char(b - 1) == c
        invariant
            n == t@.len(),
            b <= n,
            trim_end_char(t@, c) == trim_end_char(t@.subrange(0, b as int), c),
        decreases b,
    {
        assert(t@.subrange(0, b as int).drop_last() =~= t@.subrange(0, b as int - 1));
        b = b - 1;
    }
    t.substring_char(0, b)
}

/// Which text lacked the field that a host is read from.
#[derive(Debug, Clone, Copy, PartialEq, Eq, Structural)]
pub enum HostError {
    /// No `PRETTY_NAME=` line in the system release file.
    OsRelease,
    /// No `model name` line in the processor information.
    CpuInfo,
    /// No `MemTotal:` line in the memory information.
    MemInfo,
}

/// The machine that metrics were taken on.
#[derive(Debug)]
pub struct Host {
    pub os: String,
    pub cpu: String,
    pub mem: String,
}

/// The state after `h` is written as an object of its three fields.
pub open spec fn host_json(j: JsonState, h: Host) -> JsonState {
    let j1 = after_string(after_field(after_begin_object(j), "os"@), h.os@);
    let j2 = after_string(after_field(j1, "cpu"@), h.cpu@);
    let j3 = after_string(after_field(j2, "mem"@), h.mem@);
    put(j3, seq!['}'])
}

impl Host {
    /// Reads a host from the system release file, the processor information
    /// and the memory information: the quoted `PRETTY_NAME=`, the `model
    /// name` after its colon, and `MemTotal:`. Each is the first line that
    /// starts with its field; an error names the first text without one.
    pub fn new(os_release: &str, cpuinfo: &str, meminfo: &str) -> (r: Result<Host, HostError>)
        ensures
            ({
                let os = field_after(os_release@, "PRETTY_NAME="@, 0);
                let cpu = field_after(cpuinfo@, "model name"@, 0);
                let mem = field_after(meminfo@, "MemTotal:"@, 0);
                &&& os is None ==> r == Err::<Host, HostError>(HostError::OsRelease)
                &&& os is Some && cpu is None ==> r == Err::<Host, HostError>(HostError::CpuInfo)
                &&& os is Some && cpu is Some && mem is None ==> r == Err::<Host, HostError>(
                    HostError::MemInfo,
                )
                &&& os is Some && cpu is Some && mem is Some ==> {
                    &&& r is Ok
                    &&& r->Ok_0.os@ == trim_end_char(trim_start_char(trimmed(os->0), '"'), '"')
                    &&& r->Ok_0.cpu@ == trimmed(trim_start_char(trimmed(cpu->0), ':'))
                    &&& r->Ok_0.mem@ == trimmed(mem->0)
                }
            }),
    {
        let os = match read_field(os_release, "PRETTY_NAME=") {
            Some(v) => v,
            None => return Err(HostError::OsRelease),
        };
        let cpu = match read_field(cpuinfo, "model name") {
            Some(v) => v,
            None => return Err(HostError::CpuInfo),
        };
        let mem = match read_field(meminfo, "MemTotal:") {
            Some(v) => v,
            None => return Err(HostError::MemInfo),
        };
        let os = String::from_str(trim_matches(os.as_str(), '"'));
        let cpu = trim(trim_start_matches(cpu.as_str(), ':'));
        Ok(Host { os, cpu, mem })
    }

    /// A host from its system name, processor model and memory size.
    pub fn from_parts(os: String, cpu: String, mem: String) -> (r: Host)
        ensures
            r.os@ == os@,
            r.cpu@ == cpu@,
            r.mem@ == mem@,
    {
        Host { os, cpu, mem }
    }

    /// Writes the host as an object with fields `os`, `cpu` and `mem`.
    pub fn to_json(&self, json: &mut Json)
        ensures
            final(json)@ == host_json(old(json)@, *self),
    {
        json.begin_object();
        json.field("os");
        json.string(self.os.as_str());
        json.field("cpu");
        json.string(self.cpu.as_str());
        json.field("mem");
        json.string(self.mem.as_str());
        json.end_object();
    }
}

/// One measured value with its unit.
#[derive(Debug)]
pub struct Measurement {
    pub name: String,
    pub value: u64,
    pub unit: &'static str,
}

/// A set of named measurements of one revision on one host.
#[derive(Debug)]
pub struct Metrics {
    pub host: Host,
    /// Seconds since the Unix epoch when the metrics were taken.
    pub timestamp: u64,
    pub revision: String,
    /// The measurements, sorted by name, each name once.
    pub metrics: Vec<Measurement>,
}

/// Each name sorts before the next one.
pub open spec fn sorted_names(ms: Seq<Measurement>) -> bool {
    forall|i: int| 0 <= i < ms.len() - 1 ==> str_lt(#[trigger] ms[i].name@, ms[i + 1].name@)
}

/// The state after the first `k` measurements of `ms` are written, each as
/// a field holding its value and its unit.
pub open spec fn measurements_json(j: JsonState, ms: Seq<Measurement>, k: nat) -> JsonState
    decreases k,
{
    if k == 0 || k > ms.len() {
        j
    } else {
        let prev = measurements_json(j, ms, (k - 1) as nat);
        let m = ms[k - 1];
        let j1 = after_begin_array(after_field(prev, m.name@));
        put(after_string(after_number(j1, m.value as nat), m.unit@), seq![']'])
    }
}

/// The state after `m` is written as one object.
pub open spec fn metrics_json(j: JsonState, m: Metrics) -> JsonState {
    let j1 = host_json(after_field(after_begin_object(j), "host"@), m.host);
    let j2 = after_number(after_field(j1, "timestamp"@), m.timestamp as nat);
    let j3 = after_string(after_field(j2, "revision"@), m.revision@);
    let j4 = after_begin_object(after_field(j3, "metrics"@));
    let j5 = measurements_json(j4, m.metrics@, m.metrics@.len());
    put(put(j5, seq!['}']), seq!['}'])
}

impl Metrics {
    /// The names are sorted, each once.
    pub open spec fn wf(&self) -> bool {
        sorted_names(self.metrics@)
    }

    /// Metrics of `revision` on `host` at `timestamp`, with no measurement.
    pub fn new(host: Host, timestamp: u64, revision: String) -> (r: Metrics)
        ensures
            r.wf(),
            r.host == host,
            r.timestamp == timestamp,
            r.revision@ == revision@,
            r.metrics@.len() == 0,
    {
        Metrics { host, timestamp, revision, metrics: Vec::new() }
    }

    /// Records `value` in `unit` under `name`: it replaces a measurement of
    /// that name, or joins the others at its place in name order.
    #[verifier::spinoff_prover]
    #[verifier::rlimit(30)]
    pub fn report(&mut self, name: &str, value: u64, unit: &'static str)
        requires
            old(self).wf(),
        ensures
            final(self).wf(),
            final(self).host == old(self).host,
            final(self).timestamp == old(self).timestamp,
            final(self).revision == old(self).revision,
            ({
                let ms = old(self).metrics@;
                let ns = final(self).metrics@;
                exists|k: int|
                    #![trigger ns[k]]
                    0 <= k <= ms.len() && (forall|i: int| 0 <= i < k ==> str_lt(
                        #[trigger] ms[i].name@,
                        name@,
                    )) && (ns[k].name@ == name@ && ns[k].value == value && ns[k].unit@ == unit@) && if k < ms.len() && ms[k].name@
                        == name@ {
                        ns.len() == ms.len() && forall|i: int|
                            0 <= i < ms.len() && i != k ==> #[trigger] ns[i] == ms[i]
                    } else {
                        &&& (k < ms.len() ==> str_lt(name@, ms[k].name@))
                        &&& ns.len() == ms.len() + 1
                        &&& forall|i: int| 0 <= i < k ==> #[trigger] ns[i] == ms[i]
                        &&& forall|i: int| k < i <= ms.len() ==> #[trigger] ns[i] == ms[i - 1]
                    }
            }),
    {
        let ghost ms = self.metrics@;
        let mut k: usize = 0;
        let mut found = false;
        let mut stop = false;
        while k < self.metrics.len() && !stop
            invariant
                self.metrics@ == ms,
                k <= ms.len(),
                forall|i: int| 0 <= i < k ==> str_lt(#[trigger] ms[i].name@, name@),
                stop ==> k < ms.len(),
                stop && found ==> ms[k as int].name@ == name@,
                stop && !found ==> str_lt(name@, ms[k as int].name@),
                !stop ==> !found,
            decreases ms.len() - k, if stop { 0int } else { 1int },
        {
            match compare_str(self.metrics[k].name.as_str(), name) {
                Order::Less => {
                    k = k + 1;
                },
                Order::Equal => {
                    found = true;
                    stop = true;
                },
                Order::Greater => {
                    stop = true;
                },
            }
        }
        let m = Measurement { name: String::from_str(name), value, unit };
        if found {
            self.metrics.set(k, m);
            assert(forall|i: int| 0 <= i < ms.len() ==> #[trigger] self.metrics@[i].name@ == ms[i].name@);
        } else {
            self.metrics.insert(k, m);
            let ghost ns = self.metrics@;
            assert forall|i: int| 0 <= i < ns.len() - 1 implies str_lt(
                #[trigger] ns[i].name@,
                ns[i + 1].name@,
            ) by {
                if i < k - 1 {
                    assert(ns[i] == ms[i] && ns[i + 1] == ms[i + 1]);
                } else if i == k - 1 {
                    assert(ns[i] == ms[i]);
                    assert(str_lt(ms[i].name@, name@));
                    assert(ns[i + 1].name@ == name@);
                } else if i == k {
                    assert(ns[i + 1] == ms[i]);
                    assert(ns[i].name@ == name@);
                    assert(str_lt(name@, ms[i].name@));
                } else {
                    assert(ns[i] == ms[i - 1] && ns[i + 1] == ms[i]);
                }
            }
        }
        proof {
            lemma_str_lt_irreflexive(name@);
        }
        assert(self.metrics@[k as int].name@ == name@);
        assert(self.metrics@[k as int].unit@ == unit@);
    }

    /// The metrics as one JSON object.
    pub fn json(&self) -> (r: Json)
        ensures
            r@ == metrics_json(empty_json(), *self),
    {
        let mut json = Json::default();
        self.to_json(&mut json);
        json
    }

    /// Writes the host, the time, the revision and every measurement, in
    /// name order, as one object.
    pub fn to_json(&self, json: &mut Json)
        ensures
            final(json)@ == metrics_json(old(json)@, *self),
    {
        json.begin_object();
        json.field("host");
        self.host.to_json(json);
        json.field("timestamp");
        json.number(self.timestamp);
        json.field("revision");
        json.string(self.revision.as_str());
        json.field("metrics");
        json.begin_object();
        let ghost start = json@;
        let mut i: usize = 0;
        while i < self.metrics.len()
            invariant
                i <= self.metrics@.len(),
                json@ == measurements_json(start, self.metrics@, i as nat),
            decreases self.metrics@.len() - i,
        {
            let m = &self.metrics[i];
            json.field(m.name.as_str());
            json.begin_array();
            json.number(m.value);
            json.string(m.unit);
            json.end_array();
            i = i + 1;
        }
        json.end_object();
        json.end_object();
    }
}

} // verus!
