//! The task record: one trackable recurring-work unit with priority and tag
//! metadata. Records are immutable by convention: every edit returns a fresh
//! copy and leaves the receiver untouched.
use vstd::prelude::*;
use vstd::string::*;
use vstd::utf8::*;

verus! {

/// `needle` occurs in `hay` starting at byte offset `i`.
pub open spec fn bytes_match_at(hay: Seq<u8>, needle: Seq<u8>, i: int) -> bool {
    0 <= i && i + needle.len() <= hay.len() && hay.subrange(i, i + needle.len()) == needle
}

/// `needle` occurs somewhere in `hay`.
pub open spec fn bytes_contain(hay: Seq<u8>, needle: Seq<u8>) -> bool {
    exists|i: int| bytes_match_at(hay, needle, i)
}

/// `needle` is a substring of `hay`, compared on their UTF-8 encodings.
pub open spec fn chars_contain(hay: Seq<char>, needle: Seq<char>) -> bool {
    bytes_contain(encode_utf8(hay), encode_utf8(needle))
}

/// Substring search: case-sensitive, over the UTF-8 bytes of both strings.
pub fn contains_sub(hay: &str, needle: &str) -> (r: bool)
    ensures
        r == chars_contain(hay@, needle@),
{
    let h = hay.as_bytes();
    let n = needle.as_bytes();
    if n.len() > h.len() {
        return false;
    }
    let mut i: usize = 0;
    while i <= h.len() - n.len()
        invariant
            n.len() <= h.len(),
            i <= h.len() - n.len() + 1,
            forall|k: int| 0 <= k < i ==> !bytes_match_at(h@, n@, k),
        decreases h.len() - n.len() - i + 1,
    {
        let mut j: usize = 0;
        while j < n.len() && h[i + j] == n[j]
            invariant
                n.len() <= h.len(),
                i + n.len() <= h.len(),
                j <= n.len(),
                forall|k: int| 0 <= k < j ==> h@[i + k] == n@[k],
            decreases n.len() - j,
        {
            j += 1;
        }
        if j == n.len() {
            proof {
                assert(h@.subrange(i as int, i + n@.len()) =~= n@);
                assert(bytes_match_at(h@, n@, i as int));
            }
            return true;
        }
        i += 1;
    }
    proof {
        assert(forall|k: int| bytes_match_at(h@, n@, k) ==> 0 <= k < i);
    }
    false
}

/// String equality by characters: the two views are the same sequence.
pub fn str_eq(a: &str, b: &str) -> (r: bool)
    ensures
        r == (a@ == b@),
{
    let x = a.as_bytes();
    let y = b.as_bytes();
    if x.len() != y.len() {
        proof {
            broadcast use encode_utf8_decode_utf8;

        }
        return false;
    }
    let mut i: usize = 0;
    while i < x.len()
        invariant
            x.len() == y.len(),
            i <= x.len(),
            forall|k: int| 0 <= k < i ==> x@[k] == y@[k],
        decreases x.len() - i,
    {
        if x[i] != y[i] {
            proof {
                broadcast use encode_utf8_decode_utf8;

                assert(encode_utf8(a@)[i as int] != encode_utf8(b@)[i as int]);
            }
            return false;
        }
        i += 1;
    }
    proof {
        broadcast use encode_utf8_decode_utf8;

        assert(encode_utf8(a@) =~= encode_utf8(b@));
        assert(decode_utf8(encode_utf8(a@)) == decode_utf8(encode_utf8(b@)));
    }
    true
}

/// The flavour of a record. Both flavours currently match no search term of
/// their own.
#[derive(Clone, Copy, PartialEq, Eq, Structural, Debug)]
pub enum TaskType {
    Todo,
    Deadline,
}

/// The scalar fields of a record. Timestamps are seconds since the Unix
/// epoch; the id is an opaque string derived from a creation time.
pub struct Metadata {
    pub id: String,
    pub description: Option<String>,
    pub name: String,
    pub priority: u16,
    pub created: i64,
    pub last_completed: i64,
    pub closed_at: Option<i64>,
}

/// One task record.
pub struct Task {
    pub task: TaskType,
    pub metadata: Metadata,
    pub tags: Vec<String>,
}

/// Mathematical image of `Metadata`: strings become character sequences.
pub struct MetadataV {
    pub id: Seq<char>,
    pub description: Option<Seq<char>>,
    pub name: Seq<char>,
    pub priority: u16,
    pub created: i64,
    pub last_completed: i64,
    pub closed_at: Option<i64>,
}

/// Mathematical image of `Task`.
pub struct TaskV {
    pub kind: TaskType,
    pub metadata: MetadataV,
    pub tags: Seq<Seq<char>>,
}

impl View for Metadata {
    type V = MetadataV;

    open spec fn view(&self) -> MetadataV {
        MetadataV {
            id: self.id@,
            description: match self.description {
                Some(d) => Some(d@),
                None => None,
            },
            name: self.name@,
            priority: self.priority,
            created: self.created,
            last_completed: self.last_completed,
            closed_at: self.closed_at,
        }
    }
}

impl View for Task {
    type V = TaskV;

    open spec fn view(&self) -> TaskV {
        TaskV { kind: self.task, metadata: self.metadata@, tags: self.tags.deep_view() }
    }
}

impl DeepView for Task {
    type V = TaskV;

    open spec fn deep_view(&self) -> TaskV {
        self.view()
    }
}

fn clone_opt_string(o: &Option<String>) -> (r: Option<String>)
    ensures
        r == o,
{
    match o {
        Some(s) => Some(s.clone()),
        None => None,
    }
}

impl Clone for Metadata {
    fn clone(&self) -> (r: Metadata)
        ensures
            r@ == self@,
    {
        Metadata {
            id: self.id.clone(),
            description: clone_opt_string(&self.description),
            name: self.name.clone(),
            priority: self.priority,
            created: self.created,
            last_completed: self.last_completed,
            closed_at: self.closed_at,
        }
    }
}

/// Clone a list of strings, keeping the sequence of characters of each entry.
pub fn clone_string_vec(v: &Vec<String>) -> (r: Vec<String>)
    ensures
        r.deep_view() == v.deep_view(),
{
    let mut out: Vec<String> = Vec::new();
    let mut i: usize = 0;
    while i < v.len()
        invariant
            i <= v.len(),
            out.deep_view() =~= v.deep_view().subrange(0, i as int),
        decreases v.len() - i,
    {
        out.push(v[i].clone());
        i += 1;
    }
    proof {
        assert(v.deep_view().subrange(0, v.len() as int) =~= v.deep_view());
    }
    out
}

impl Clone for Task {
    fn clone(&self) -> (r: Task)
        ensures
            r@ == self@,
    {
        Task {
            task: self.task,
            metadata: self.metadata.clone(),
            tags: clone_string_vec(&self.tags),
        }
    }
}

impl Task {
    /// The record's display name.
    pub fn name(&self) -> (r: &str)
        ensures
            r@ == self@.metadata.name,
    {
        self.metadata.name.as_str()
    }

    /// The record's opaque identifier.
    pub fn id(&self) -> (r: &str)
        ensures
            r@ == self@.metadata.id,
    {
        self.metadata.id.as_str()
    }

    /// Seconds since the epoch at which the record was last completed.
    pub fn last_touched(&self) -> (r: i64)
        ensures
            r == self@.metadata.last_completed,
    {
        self.metadata.last_completed
    }

    /// The closing time, if the record has been retired.
    pub fn closed(&self) -> (r: Option<i64>)
        ensures
            r == self@.metadata.closed_at,
    {
        self.metadata.closed_at
    }

    /// The non-negative priority weight.
    pub fn priority(&self) -> (r: u16)
        ensures
            r == self@.metadata.priority,
    {
        self.metadata.priority
    }

    /// The optional long description.
    pub fn description(&self) -> (r: &Option<String>)
        ensures
            r is Some <==> self@.metadata.description is Some,
            r is Some ==> r->0@ == self@.metadata.description->0,
    {
        &self.metadata.description
    }

    /// Seconds since the epoch at which the record was created.
    pub fn created(&self) -> (r: i64)
        ensures
            r == self@.metadata.created,
    {
        self.metadata.created
    }
}

/// The record as it looks after completing a round at time `now`.
pub open spec fn touched_view(t: TaskV, now: i64) -> TaskV {
    TaskV { metadata: MetadataV { last_completed: now, ..t.metadata }, ..t }
}

/// The record as it looks after being retired at time `now`.
pub open spec fn completed_view(t: TaskV, now: i64) -> TaskV {
    TaskV { metadata: MetadataV { last_completed: now, closed_at: Some(now), ..t.metadata }, ..t }
}

impl Task {
    /// A copy stamped as completed (and closed) at time `now`.
    pub fn completed_at(&self, now: i64) -> (r: Task)
        ensures
            r@ == completed_view(self@, now),
    {
        let mut task = self.clone();
        task.metadata.last_completed = now;
        task.metadata.closed_at = Some(now);
        task
    }

    /// A copy stamped as completed and closed at the present moment.
    pub fn completed(&self) -> (r: Task)
        ensures
            r@ == completed_view(self@, r@.metadata.last_completed),
    {
        let now = crate::clock::now_seconds();
        self.completed_at(now)
    }

    /// A copy whose last-touched stamp is `now`; the closing time is kept.
    pub fn touched_at(&self, now: i64) -> (r: Task)
        ensures
            r@ == touched_view(self@, now),
    {
        let mut task = self.clone();
        task.metadata.last_completed = now;
        task
    }

    /// A copy touched at the present moment.
    pub fn touched(&self) -> (r: Task)
        ensures
            r@ == touched_view(self@, r@.metadata.last_completed),
    {
        let now = crate::clock::now_seconds();
        self.touched_at(now)
    }

    /// A copy whose tag list is replaced wholesale.
    pub fn set_tags(&self, tags: Vec<String>) -> (r: Task)
        ensures
            r@ == (TaskV { tags: tags.deep_view(), ..self@ }),
    {
        let mut out = self.clone();
        out.tags = tags;
        out
    }
}

/// The tag list grown by `new`, in order, skipping entries already present.
pub open spec fn with_tags_added(cur: Seq<Seq<char>>, new: Seq<Seq<char>>) -> Seq<Seq<char>>
    decreases new.len(),
{
    if new.len() == 0 {
        cur
    } else {
        let grown = if cur.contains(new[0]) {
            cur
        } else {
            cur.push(new[0])
        };
        with_tags_added(grown, new.drop_first())
    }
}

/// Whether the character sequence of `s` stands in `v`.
pub fn vec_contains_str(v: &Vec<String>, s: &str) -> (r: bool)
    ensures
        r == v.deep_view().contains(s@),
{
    let mut i: usize = 0;
    while i < v.len()
        invariant
            i <= v.len(),
            forall|k: int| 0 <= k < i ==> v.deep_view()[k] != s@,
        decreases v.len() - i,
    {
        if str_eq(v[i].as_str(), s) {
            proof {
                assert(v.deep_view()[i as int] == s@);
            }
            return true;
        }
        i += 1;
    }
    false
}

impl Task {
    /// A copy with each entry of `tags` appended unless already present;
    /// duplicates inside `tags` itself are likewise collapsed.
    pub fn add_tags(&self, tags: Vec<String>) -> (r: Task)
        ensures
            r@ == (TaskV { tags: with_tags_added(self@.tags, tags.deep_view()), ..self@ }),
    {
        let mut out = self.clone();
        let ghost all = tags.deep_view();
        let ghost orig = self@.tags;
        proof {
            assert(all.skip(0) =~= all);
        }
        let mut i: usize = 0;
        while i < tags.len()
            invariant
                i <= tags.len(),
                all == tags.deep_view(),
                with_tags_added(out@.tags, all.skip(i as int)) == with_tags_added(orig, all),
                out@ == (TaskV { tags: out@.tags, ..self@ }),
            decreases tags.len() - i,
        {
            let ghost before = out@.tags;
            proof {
                assert(all.skip(i as int)[0] == all[i as int]);
                assert(all.skip(i as int).drop_first() =~= all.skip(i + 1));
            }
            let present = vec_contains_str(&out.tags, tags[i].as_str());
            if !present {
                out.tags.push(tags[i].clone());
                proof {
                    assert(out@.tags =~= before.push(all[i as int]));
                }
            }
            proof {
                assert(with_tags_added(before, all.skip(i as int)) == with_tags_added(
                    out@.tags,
                    all.skip(i + 1),
                ));
            }
            i += 1;
        }
        proof {
            assert(all.skip(tags.len() as int) =~= Seq::<Seq<char>>::empty());
        }
        out
    }

    /// A copy with every tag listed in `tags` removed; order of the rest is
    /// kept.
    pub fn remove_tags(&self, tags: &Vec<String>) -> (r: Task)
        ensures
            r@ == (TaskV {
                tags: self@.tags.filter(|t: Seq<char>| !tags.deep_view().contains(t)),
                ..self@
            }),
    {
        let ghost pred = |t: Seq<char>| !tags.deep_view().contains(t);
        let mut kept: Vec<String> = Vec::new();
        let mut i: usize = 0;
        while i < self.tags.len()
            invariant
                i <= self.tags.len(),
                kept.deep_view() == self@.tags.subrange(0, i as int).filter(pred),
            decreases self.tags.len() - i,
        {
            let ghost prefix = self@.tags.subrange(0, i as int);
            proof {
                assert(self@.tags.subrange(0, i + 1) =~= prefix.push(self@.tags[i as int]));
                lemma_filter_push(prefix, self@.tags[i as int], pred);
            }
            if !vec_contains_str(tags, self.tags[i].as_str()) {
                kept.push(self.tags[i].clone());
                proof {
                    assert(kept.deep_view() =~= self@.tags.subrange(0, i + 1).filter(pred));
                }
            }
            i += 1;
        }
        proof {
            assert(self@.tags.subrange(0, self.tags.len() as int) =~= self@.tags);
        }
        let mut out = self.clone();
        out.tags = kept;
        out
    }

    /// A copy with the description, the priority and the name each replaced
    /// where a new value is given and kept where none is.
    pub fn updated_todo(&self, desc: Option<&str>, priority: Option<&u16>, name: Option<&str>) -> (r:
        Task)
        ensures
            r@.metadata.description == (match desc {
                Some(d) => Some(d@),
                None => self@.metadata.description,
            }),
            r@.metadata.name == (match name {
                Some(n) => n@,
                None => self@.metadata.name,
            }),
            r@.metadata.priority == (match priority {
                Some(p) => *p,
                None => self@.metadata.priority,
            }),
            r@.metadata.id == self@.metadata.id,
            r@.metadata.created == self@.metadata.created,
            r@.metadata.last_completed == self@.metadata.last_completed,
            r@.metadata.closed_at == self@.metadata.closed_at,
            r@.kind == self@.kind,
            r@.tags == self@.tags,
    {
        let mut out = self.clone();
        if let Some(d) = desc {
            out.metadata.description = Some(d.to_owned());
        }
        if let Some(n) = name {
            out.metadata.name = n.to_owned();
        }
        if let Some(p) = priority {
            out.metadata.priority = *p;
        }
        out
    }
}

/// Division by a positive constant truncated toward zero, as the machine
/// division of signed integers behaves.
pub open spec fn trunc_div(d: int, q: int) -> int {
    if d >= 0 {
        d / q
    } else {
        -((-d) / q)
    }
}

/// Whole hours from `then` to `now`, truncated toward zero.
pub fn age_hours(now: i64, then: i64) -> (r: i64)
    ensures
        r == trunc_div(now - then, 3600),
{
    let diff: i128 = now as i128 - then as i128;
    if diff >= 0 {
        (diff / 3600) as i64
    } else {
        (-((-diff) / 3600)) as i64
    }
}

/// The age of a record as a day and hour count for display: over a full day
/// it is split into days and leftover hours, otherwise the hour count stands
/// alone.
pub fn age_split(now: i64, then: i64) -> (r: (i64, i64))
    ensures
        trunc_div(now - then, 3600) > 24 ==> r.0 == trunc_div(now - then, 3600) / 24 && r.1
            == trunc_div(now - then, 3600) % 24,
        trunc_div(now - then, 3600) <= 24 ==> r.0 == 0 && r.1 == trunc_div(now - then, 3600),
{
    let hours = age_hours(now, then);
    if hours > 24 {
        (hours / 24, hours % 24)
    } else {
        (0, hours)
    }
}

/// Filtering a sequence extended by one element keeps the filtered prefix and
/// appends the element exactly when it passes the predicate.
pub proof fn lemma_filter_push<A>(s: Seq<A>, x: A, pred: spec_fn(A) -> bool)
    ensures
        s.push(x).filter(pred) == if pred(x) {
            s.filter(pred).push(x)
        } else {
            s.filter(pred)
        },
{
    assert(s.push(x).drop_last() =~= s);
    assert(s.push(x).last() == x);
    reveal_with_fuel(Seq::filter, 2);
}

/// The decimal digits of `n` as ASCII bytes, most significant first.
pub open spec fn dec_digits(n: nat) -> Seq<u8>
    decreases n,
{
    if n < 10 {
        seq![(48 + n) as u8]
    } else {
        dec_digits(n / 10).push((48 + (n % 10)) as u8)
    }
}

/// The decimal image of a signed value: a minus sign where needed, then the
/// digits of the magnitude.
pub open spec fn dec_i64_digits(x: int) -> Seq<u8> {
    if x < 0 {
        seq![45u8] + dec_digits((-x) as nat)
    } else {
        dec_digits(x as nat)
    }
}

/// Every decimal digit byte is an ASCII digit.
pub proof fn lemma_dec_digits_ascii(n: nat)
    ensures
        forall|i: int| 0 <= i < dec_digits(n).len() ==> 48 <= #[trigger] dec_digits(n)[i] <= 57,
    decreases n,
{
    if n >= 10 {
        lemma_dec_digits_ascii(n / 10);
        assert forall|i: int| 0 <= i < dec_digits(n).len() implies 48 <= #[trigger] dec_digits(
            n,
        )[i] <= 57 by {
            if i < dec_digits(n).len() - 1 {
                assert(dec_digits(n)[i] == dec_digits(n / 10)[i]);
            }
        }
    }
}

/// The decimal digit bytes of `n`, most significant first.
pub fn u64_dec_bytes(n: u64) -> (r: Vec<u8>)
    ensures
        r@ == dec_digits(n as nat),
        r@.len() >= 1,
{
    let mut out: Vec<u8> = Vec::new();
    let mut m: u64 = n;
    out.insert(0, (m % 10) as u8 + 48);
    proof {
        if n < 10 {
            assert(out@ =~= dec_digits(n as nat));
        } else {
            assert(out@ =~= seq![(48 + ((n as nat) % 10)) as u8]);
            assert(dec_digits(n as nat) =~= dec_digits((n as nat) / 10) + out@);
        }
    }
    m = m / 10;
    while m > 0
        invariant
            out@.len() >= 1,
            m == 0 ==> dec_digits(n as nat) == out@,
            m > 0 ==> dec_digits(n as nat) == dec_digits(m as nat) + out@,
        decreases m,
    {
        let ghost before = out@;
        out.insert(0, (m % 10) as u8 + 48);
        proof {
            assert(out@ =~= seq![(48 + ((m as nat) % 10)) as u8] + before);
            if m < 10 {
                assert(dec_digits(m as nat) =~= seq![(48 + ((m as nat) % 10)) as u8]);
                assert(dec_digits(m as nat) + before =~= out@);
            } else {
                assert(dec_digits(m as nat) =~= dec_digits((m as nat) / 10) + seq![(48 + ((
                m as nat) % 10)) as u8]);
                assert(dec_digits(m as nat) + before =~= dec_digits((m as nat) / 10) + out@);
            }
        }
        m = m / 10;
    }
    out
}

/// The decimal form of a signed stamp, as a string.
pub fn i64_dec_string(x: i64) -> (r: String)
    ensures
        vstd::utf8::encode_utf8(r@) == dec_i64_digits(x as int),
{
    let neg = x < 0;
    let mag: u64 = if x < 0 {
        (-(x as i128)) as u64
    } else {
        x as u64
    };
    let mut bytes = u64_dec_bytes(mag);
    if neg {
        bytes.insert(0, 45u8);
    }
    proof {
        assert(bytes@ == dec_i64_digits(x as int)) by {
            if neg {
                assert(bytes@ =~= seq![45u8] + dec_digits(mag as nat));
            }
        }
        assert(vstd::utf8::valid_utf8(bytes@)) by {
            lemma_dec_digits_ascii(mag as nat);
            assert(forall|i: int|
                0 <= i < bytes@.len() ==> vstd::utf8::is_leading_byte_width_1(
                    #[trigger] bytes@[i],
                ));
            assert(vstd::utf8::partial_valid_utf8(bytes@, 0)) by {
                assert(bytes@.subrange(0, 0) =~= Seq::<u8>::empty());
            }
            vstd::utf8::partial_valid_utf8_extend_ascii_block(bytes@, 0, bytes@.len() as int);
            assert(bytes@.subrange(0, bytes@.len() as int) =~= bytes@);
        }
    }
    let ghost bv = bytes@;
    let s = crate::codec::string_from_utf8(bytes);
    proof {
        vstd::utf8::decode_utf8_encode_utf8(bv);
    }
    s.unwrap()
}

impl Task {
    /// A fresh open record: name, optional description, priority (100 when
    /// none is given), tags (none when none are given); the id is the
    /// decimal form of `id_millis`, and both time stamps are `now`.
    pub fn new_todo_at(
        name: String,
        description: Option<&str>,
        priority: Option<u16>,
        tags: Option<Vec<String>>,
        now: i64,
        id_millis: i64,
    ) -> (r: Task)
        ensures
            r@.kind == TaskType::Todo,
            r@.metadata.name == name@,
            r@.metadata.description == (match description {
                Some(d) => Some(d@),
                None => None::<Seq<char>>,
            }),
            r@.metadata.priority == (match priority {
                Some(p) => p,
                None => 100u16,
            }),
            vstd::utf8::encode_utf8(r@.metadata.id) == dec_i64_digits(id_millis as int),
            r@.metadata.created == now,
            r@.metadata.last_completed == now,
            r@.metadata.closed_at is None,
            r@.tags == (match tags {
                Some(t) => t.deep_view(),
                None => Seq::<Seq<char>>::empty(),
            }),
    {
        let id = i64_dec_string(id_millis);
        let desc = match description {
            Some(d) => Some(d.to_owned()),
            None => None,
        };
        let prio = match priority {
            Some(p) => p,
            None => 100,
        };
        let ghost tags_given = tags;
        let tags = match tags {
            Some(t) => t,
            None => Vec::new(),
        };
        proof {
            if tags_given is None {
                assert(tags.deep_view() =~= Seq::<Seq<char>>::empty());
            }
        }
        Task {
            task: TaskType::Todo,
            metadata: Metadata {
                id,
                description: desc,
                name,
                priority: prio,
                created: now,
                last_completed: now,
                closed_at: None,
            },
            tags,
        }
    }

    /// A fresh open record stamped at the present moment; the id is derived
    /// from the clock's millisecond reading.
    pub fn new_todo(
        name: String,
        description: Option<&str>,
        priority: Option<u16>,
        tags: Option<Vec<String>>,
    ) -> (r: Task)
        ensures
            r@.kind == TaskType::Todo,
            r@.metadata.name == name@,
            r@.metadata.description == (match description {
                Some(d) => Some(d@),
                None => None::<Seq<char>>,
            }),
            r@.metadata.priority == (match priority {
                Some(p) => p,
                None => 100u16,
            }),
            r@.metadata.created == r@.metadata.last_completed,
            r@.metadata.closed_at is None,
            r@.tags == (match tags {
                Some(t) => t.deep_view(),
                None => Seq::<Seq<char>>::empty(),
            }),
    {
        let now = crate::clock::now_seconds();
        let millis = crate::clock::now_millis();
        Task::new_todo_at(name, description, priority, tags, now, millis)
    }
}

/// The tag list after one edit pass: additions first, then removals, then,
/// when a replacement list is given, the replacement wholesale.
pub open spec fn edited_tags(
    cur: Seq<Seq<char>>,
    atag: Option<Seq<Seq<char>>>,
    rtag: Option<Seq<Seq<char>>>,
    stag: Option<Seq<Seq<char>>>,
) -> Seq<Seq<char>> {
    let added = match atag {
        Some(a) => with_tags_added(cur, a),
        None => cur,
    };
    let removed = match rtag {
        Some(d) => added.filter(|t: Seq<char>| !d.contains(t)),
        None => added,
    };
    match stag {
        Some(s) => s,
        None => removed,
    }
}

impl Task {
    /// One edit pass over a record: tag additions, removals and
    /// replacement in that order, then the optional field updates.
    pub fn edited(
        &self,
        atag: &Option<Vec<String>>,
        rtag: &Option<Vec<String>>,
        stag: &Option<Vec<String>>,
        desc: Option<&str>,
        priority: Option<&u16>,
        name: Option<&str>,
    ) -> (r: Task)
        ensures
            r@.tags == edited_tags(
                self@.tags,
                match atag {
                    Some(a) => Some(a.deep_view()),
                    None => None,
                },
                match rtag {
                    Some(d) => Some(d.deep_view()),
                    None => None,
                },
                match stag {
                    Some(s) => Some(s.deep_view()),
                    None => None,
                },
            ),
            r@.metadata.description == (match desc {
                Some(d) => Some(d@),
                None => self@.metadata.description,
            }),
            r@.metadata.name == (match name {
                Some(n) => n@,
                None => self@.metadata.name,
            }),
            r@.metadata.priority == (match priority {
                Some(p) => *p,
                None => self@.metadata.priority,
            }),
            r@.metadata.id == self@.metadata.id,
            r@.metadata.created == self@.metadata.created,
            r@.metadata.last_completed == self@.metadata.last_completed,
            r@.metadata.closed_at == self@.metadata.closed_at,
            r@.kind == self@.kind,
    {
        let mut task = self.clone();
        if let Some(addtags) = atag {
            task = task.add_tags(clone_string_vec(addtags));
        }
        if let Some(rmtags) = rtag {
            task = task.remove_tags(rmtags);
        }
        if let Some(settags) = stag {
            task = task.set_tags(clone_string_vec(settags));
        }
        task.updated_todo(desc, priority, name)
    }
}

/// Two pointwise-equal predicates filter a sequence to the same result.
pub proof fn lemma_filter_congruence<A>(s: Seq<A>, p: spec_fn(A) -> bool, q: spec_fn(A) -> bool)
    requires
        forall|x: A| #[trigger] p(x) == q(x),
    ensures
        s.filter(p) == s.filter(q),
    decreases s.len(),
{
    reveal_with_fuel(Seq::filter, 2);
    if s.len() == 0 {
        assert(s.filter(p) =~= s.filter(q));
    } else {
        lemma_filter_congruence(s.drop_last(), p, q);
        assert(p(s.last()) == q(s.last()));
    }
}

/// `term` matches the metadata: it is a substring of the name, of the
/// description (when present), or of the id.
pub open spec fn metadata_matches(m: MetadataV, term: Seq<char>) -> bool {
    ||| chars_contain(m.name, term)
    ||| (m.description is Some && chars_contain(m.description->0, term))
    ||| chars_contain(m.id, term)
}

/// `term` matches the record: it matches the metadata or equals one tag.
pub open spec fn task_matches(t: TaskV, term: Seq<char>) -> bool {
    metadata_matches(t.metadata, term) || t.tags.contains(term)
}

/// Every term of `terms` matches the record.
pub open spec fn mass_matches(t: TaskV, terms: Seq<Seq<char>>) -> bool {
    forall|i: int| 0 <= i < terms.len() ==> task_matches(t, terms[i])
}

/// A record matches the empty term list vacuously.
pub proof fn lemma_mass_matches_empty(t: TaskV)
    ensures
        mass_matches(t, Seq::<Seq<char>>::empty()),
{
}

/// A record matches a one-term list exactly when the term is a substring of
/// the id, the name or the description, or equals one of the tags.
pub proof fn lemma_mass_matches_single(t: TaskV, term: Seq<char>)
    ensures
        mass_matches(t, seq![term]) <==> {
            ||| chars_contain(t.metadata.id, term)
            ||| chars_contain(t.metadata.name, term)
            ||| (t.metadata.description is Some && chars_contain(t.metadata.description->0, term))
            ||| t.tags.contains(term)
        },
{
    assert(seq![term][0] == term);
}

impl TaskType {
    /// No search term matches the record's flavour itself.
    pub fn contains(&self, _string: &str) -> (r: bool)
        ensures
            !r,
    {
        match self {
            TaskType::Todo => false,
            TaskType::Deadline => false,
        }
    }
}

impl Metadata {
    /// Substring match against name, description and id.
    pub fn contains(&self, string: &str) -> (r: bool)
        ensures
            r == metadata_matches(self@, string@),
    {
        if contains_sub(self.name.as_str(), string) {
            return true;
        }
        match &self.description {
            Some(desc) => {
                if contains_sub(desc.as_str(), string) {
                    return true;
                }
            },
            None => {},
        }
        contains_sub(self.id.as_str(), string)
    }
}

impl Task {
    /// `tag` equals one of the record's tags, character for character.
    pub fn is_tagged(&self, tag: &str) -> (r: bool)
        ensures
            r == self@.tags.contains(tag@),
    {
        let mut i: usize = 0;
        while i < self.tags.len()
            invariant
                i <= self.tags.len(),
                forall|k: int| 0 <= k < i ==> self@.tags[k] != tag@,
            decreases self.tags.len() - i,
        {
            if str_eq(self.tags[i].as_str(), tag) {
                proof {
                    assert(self@.tags[i as int] == tag@);
                }
                return true;
            }
            i += 1;
        }
        false
    }

    /// `string` matches this record (metadata substring or tag equality).
    pub fn contains(&self, string: &str) -> (r: bool)
        ensures
            r == task_matches(self@, string@),
    {
        if self.metadata.contains(string) {
            return true;
        }
        if self.task.contains(string) {
            return true;
        }
        self.is_tagged(string)
    }

    /// Every term in `strings` matches this record (AND across terms).
    pub fn mass_contains(&self, strings: &Vec<String>) -> (r: bool)
        ensures
            r == mass_matches(self@, strings.deep_view()),
    {
        let mut i: usize = 0;
        while i < strings.len()
            invariant
                i <= strings.len(),
                forall|k: int| 0 <= k < i ==> task_matches(self@, strings.deep_view()[k]),
            decreases strings.len() - i,
        {
            if !self.contains(strings[i].as_str()) {
                proof {
                    assert(strings.deep_view()[i as int] == strings@[i as int]@);
                }
                return false;
            }
            i += 1;
        }
        true
    }
}

} // verus!
