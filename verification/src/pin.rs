//! The bookmark and tag records of a snapshot.
//!
//! A bookmark carries its tags twice: as one space-delimited text, the form
//! the remote service exchanges, and as a parsed list. The two stay
//! consistent: the list is always exactly the space-split of the text, and
//! constructors prove it.

use vstd::prelude::*;

use crate::clock::now_timestamp;
use crate::matching::{is_subsequence, lower_of, lowercase, seq_contains, str_contains,
    str_subsequence};
use crate::request::{url_is_valid, url_len_ok, url_ok};

verus! {

/// A tag name fit for space-delimited tag text: non-empty and without
/// spaces.
pub open spec fn wf_tag(t: Seq<char>) -> bool {
    &&& t.len() > 0
    &&& forall|i: int| 0 <= i < t.len() ==> t[i] != ' '
}

/// What follows the first tag in joined tag text: one space before each
/// further tag.
pub open spec fn tail_join(ts: Seq<Seq<char>>) -> Seq<char>
    decreases ts.len(),
{
    if ts.len() == 0 {
        Seq::empty()
    } else {
        seq![' '] + ts[0] + tail_join(ts.skip(1))
    }
}

/// Tag list joined into space-delimited tag text.
pub open spec fn join_tags(ts: Seq<Seq<char>>) -> Seq<char> {
    if ts.len() == 0 {
        Seq::empty()
    } else {
        ts[0] + tail_join(ts.skip(1))
    }
}

/// Length of the leading run of non-space characters.
pub open spec fn token_len(s: Seq<char>) -> int
    decreases s.len(),
{
    if s.len() == 0 {
        0
    } else if s[0] == ' ' {
        0
    } else {
        1 + token_len(s.skip(1))
    }
}

proof fn lemma_token_len_bounds(s: Seq<char>)
    ensures
        0 <= token_len(s) <= s.len(),
    decreases s.len(),
{
    if s.len() != 0 && s[0] != ' ' {
        lemma_token_len_bounds(s.skip(1));
    }
}

/// Space-delimited text split into its tags; runs of spaces yield nothing.
pub open spec fn split_sp(s: Seq<char>) -> Seq<Seq<char>>
    decreases s.len(),
    via split_sp_decreases
{
    if s.len() == 0 {
        Seq::empty()
    } else if s[0] == ' ' {
        split_sp(s.skip(1))
    } else {
        seq![s.take(token_len(s))] + split_sp(s.skip(token_len(s)))
    }
}

#[via_fn]
proof fn split_sp_decreases(s: Seq<char>) {
    if s.len() != 0 && s[0] != ' ' {
        lemma_token_len_bounds(s.skip(1));
    }
}

/// The leading token is exactly `k` characters long when the first `k`
/// characters are non-spaces and the text ends or has a space there.
proof fn lemma_token_len_exact(s: Seq<char>, k: int)
    requires
        0 <= k <= s.len(),
        forall|i: int| 0 <= i < k ==> s[i] != ' ',
        k == s.len() || s[k] == ' ',
    ensures
        token_len(s) == k,
    decreases k,
{
    if k == 0 {
    } else {
        assert(s[0] != ' ');
        lemma_token_len_exact(s.skip(1), k - 1);
    }
}

/// Splitting text that starts with one well-formed tag takes exactly that
/// tag first, provided the rest is empty or starts with a space.
proof fn lemma_split_first(t: Seq<char>, x: Seq<char>)
    requires
        wf_tag(t),
        x.len() == 0 || x[0] == ' ',
    ensures
        split_sp(t + x) == seq![t] + split_sp(x),
{
    let w = t + x;
    assert forall|i: int| 0 <= i < t.len() implies w[i] != ' ' by {
        assert(w[i] == t[i]);
    }
    if t.len() < w.len() {
        assert(w[t.len() as int] == x[0]);
    }
    lemma_token_len_exact(w, t.len() as int);
    assert(w[0] != ' ');
    assert(w.take(t.len() as int) =~= t);
    assert(w.skip(t.len() as int) =~= x);
}

proof fn lemma_split_tail_join(ts: Seq<Seq<char>>)
    requires
        forall|i: int| 0 <= i < ts.len() ==> wf_tag(#[trigger] ts[i]),
    ensures
        split_sp(tail_join(ts)) == ts,
    decreases ts.len(),
{
    if ts.len() == 0 {
        assert(split_sp(tail_join(ts)) =~= ts);
    } else {
        let w = tail_join(ts);
        let rest = ts[0] + tail_join(ts.skip(1));
        assert(w == seq![' '] + rest);
        assert(w[0] == ' ');
        assert(w.skip(1) =~= rest);
        assert(tail_join(ts.skip(1)).len() == 0 || tail_join(ts.skip(1))[0] == ' ');
        lemma_split_first(ts[0], tail_join(ts.skip(1)));
        assert forall|i: int| 0 <= i < ts.skip(1).len() implies wf_tag(#[trigger] ts.skip(1)[i]) by {
            assert(ts.skip(1)[i] == ts[i + 1]);
        }
        lemma_split_tail_join(ts.skip(1));
        assert(seq![ts[0]] + ts.skip(1) =~= ts);
    }
}

/// Joining a list of well-formed tags and splitting the result returns the
/// same list: tag text and tag list cannot drift apart.
pub proof fn lemma_split_join(ts: Seq<Seq<char>>)
    requires
        forall|i: int| 0 <= i < ts.len() ==> wf_tag(#[trigger] ts[i]),
    ensures
        split_sp(join_tags(ts)) == ts,
{
    if ts.len() == 0 {
        assert(split_sp(join_tags(ts)) =~= ts);
    } else {
        assert(tail_join(ts.skip(1)).len() == 0 || tail_join(ts.skip(1))[0] == ' ');
        lemma_split_first(ts[0], tail_join(ts.skip(1)));
        assert forall|i: int| 0 <= i < ts.skip(1).len() implies wf_tag(#[trigger] ts.skip(1)[i]) by {
            assert(ts.skip(1)[i] == ts[i + 1]);
        }
        lemma_split_tail_join(ts.skip(1));
        assert(seq![ts[0]] + ts.skip(1) =~= ts);
    }
}

proof fn lemma_tail_join_push(ts: Seq<Seq<char>>, t: Seq<char>)
    ensures
        tail_join(ts.push(t)) == tail_join(ts) + seq![' '] + t,
    decreases ts.len(),
{
    let u = ts.push(t);
    assert(u.len() == ts.len() + 1);
    if ts.len() == 0 {
        assert(u[0] == t);
        assert(u.skip(1) =~= Seq::<Seq<char>>::empty());
        assert(tail_join(u.skip(1)) == Seq::<char>::empty());
        assert(tail_join(u) == seq![' '] + t + tail_join(u.skip(1)));
        assert(tail_join(ts) == Seq::<char>::empty());
        assert(seq![' '] + t + Seq::<char>::empty() =~= Seq::<char>::empty() + seq![' '] + t);
    } else {
        assert(u[0] == ts[0]);
        assert(u.skip(1) =~= ts.skip(1).push(t));
        lemma_tail_join_push(ts.skip(1), t);
        assert(tail_join(u) == seq![' '] + ts[0] + tail_join(ts.skip(1).push(t)));
        assert(tail_join(u) == seq![' '] + ts[0] + (tail_join(ts.skip(1)) + seq![' '] + t));
        assert(tail_join(ts) == seq![' '] + ts[0] + tail_join(ts.skip(1)));
        assert(seq![' '] + ts[0] + (tail_join(ts.skip(1)) + seq![' '] + t) =~= (seq![' '] + ts[0]
            + tail_join(ts.skip(1))) + seq![' '] + t);
    }
}

proof fn lemma_join_push(ts: Seq<Seq<char>>, t: Seq<char>)
    ensures
        ts.len() == 0 ==> join_tags(ts.push(t)) == t,
        ts.len() > 0 ==> join_tags(ts.push(t)) == join_tags(ts) + seq![' '] + t,
{
    if ts.len() == 0 {
        assert(ts.push(t).skip(1) =~= Seq::<Seq<char>>::empty());
        assert(join_tags(ts.push(t)) =~= t);
    } else {
        assert(ts.push(t).skip(1) =~= ts.skip(1).push(t));
        lemma_tail_join_push(ts.skip(1), t);
        assert(join_tags(ts.push(t)) =~= join_tags(ts) + seq![' '] + t);
    }
}

/// Whether a tag name may enter a tag list.
pub fn tag_is_wf(t: &str) -> (r: bool)
    ensures
        r == wf_tag(t@),
{
    let n = t.unicode_len();
    if n == 0 {
        return false;
    }
    let mut i: usize = 0;
    while i < n
        invariant
            i <= n,
            n == t@.len(),
            forall|k: int| 0 <= k < i ==> t@[k] != ' ',
        decreases n - i,
    {
        if t.get_char(i) == ' ' {
            return false;
        }
        i = i + 1;
    }
    true
}

/// Space-delimited tag text joined from a list.
pub fn join_tag_list(ts: &Vec<String>) -> (r: String)
    ensures
        r@ == join_tags(ts.deep_view()),
{
    let mut r = String::new();
    let mut i: usize = 0;
    proof {
        reveal_strlit(" ");
        assert(" "@ =~= seq![' ']);
        assert(ts.deep_view().take(0) =~= Seq::<Seq<char>>::empty());
    }
    while i < ts.len()
        invariant
            i <= ts.len(),
            r@ == join_tags(ts.deep_view().take(i as int)),
            " "@ =~= seq![' '],
        decreases ts.len() - i,
    {
        if i > 0 {
            r.append(" ");
        }
        r.append(ts[i].as_str());
        proof {
            let dv = ts.deep_view();
            assert(dv.take(i as int).push(dv[i as int]) =~= dv.take(i + 1));
            lemma_join_push(dv.take(i as int), dv[i as int]);
        }
        i = i + 1;
    }
    proof {
        assert(ts.deep_view().take(ts.len() as int) =~= ts.deep_view());
    }
    r
}

/// The end of the run of non-space characters that starts at `start`.
fn token_end(s: &str, start: usize, n: usize) -> (j: usize)
    requires
        n == s@.len(),
        start < n,
        s@[start as int] != ' ',
    ensures
        start < j <= n,
        forall|k: int| start <= k < j ==> s@[k] != ' ',
        j == n || s@[j as int] == ' ',
{
    let mut j: usize = start + 1;
    loop
        invariant
            start < j <= n,
            n == s@.len(),
            forall|k: int| start <= k < j ==> s@[k] != ' ',
        decreases n - j,
    {
        if j == n {
            return j;
        }
        if s.get_char(j) == ' ' {
            return j;
        }
        j = j + 1;
    }
}

/// Space-delimited tag text split into a tag list.
pub fn split_tag_text(s: &str) -> (r: Vec<String>)
    ensures
        r.deep_view() == split_sp(s@),
{
    let n = s.unicode_len();
    let mut r: Vec<String> = Vec::new();
    let mut i: usize = 0;
    proof {
        assert(s@.skip(0) =~= s@);
        assert(r.deep_view() + split_sp(s@) =~= split_sp(s@));
    }
    while i < n
        invariant
            i <= n,
            n == s@.len(),
            split_sp(s@) == r.deep_view() + split_sp(s@.skip(i as int)),
        decreases n - i,
    {
        if s.get_char(i) == ' ' {
            proof {
                assert(s@.skip(i as int)[0] == ' ');
                assert(s@.skip(i as int).skip(1) =~= s@.skip(i + 1));
            }
            i = i + 1;
        } else {
            let start = i;
            let j = token_end(s, start, n);
            let tok = s.substring_char(start, j);
            proof {
                let w = s@.skip(start as int);
                assert forall|k: int| 0 <= k < j - start implies w[k] != ' ' by {
                    assert(w[k] == s@[start + k]);
                }
                if j < n {
                    assert(w[j - start] == s@[j as int]);
                }
                lemma_token_len_exact(w, j - start);
                assert(w[0] == s@[start as int]);
                assert(w.take(j - start) =~= tok@);
                assert(w.skip(j - start) =~= s@.skip(j as int));
            }
            let ghost old_r = r.deep_view();
            r.push(String::from_str(tok));
            proof {
                assert(r.deep_view() =~~= old_r.push(tok@));
                assert(old_r + (seq![tok@] + split_sp(s@.skip(j as int))) =~= r.deep_view()
                    + split_sp(s@.skip(j as int)));
            }
            i = j;
        }
    }
    proof {
        assert(split_sp(s@.skip(n as int)) =~= Seq::<Seq<char>>::empty());
        assert(r.deep_view() + split_sp(s@.skip(n as int)) =~= r.deep_view());
    }
    r
}

/// A tag name with its usage frequency across all bookmarks.
#[derive(Debug, Clone, PartialEq, Eq)]
pub struct Tag(pub String, pub u64);

impl View for Tag {
    type V = (Seq<char>, u64);

    open spec fn view(&self) -> (Seq<char>, u64) {
        (self.0@, self.1)
    }
}

impl DeepView for Tag {
    type V = (Seq<char>, u64);

    open spec fn deep_view(&self) -> (Seq<char>, u64) {
        self.view()
    }
}

impl Tag {
    pub fn new(name: String, freq: u64) -> (r: Tag)
        ensures
            r@ == (name@, freq),
    {
        Tag(name, freq)
    }
}

/// The mathematical value of a bookmark.
pub struct PinView {
    pub url: Seq<char>,
    pub title: Seq<char>,
    pub tags: Seq<char>,
    pub shared: Seq<char>,
    pub toread: Seq<char>,
    pub extended: Option<Seq<char>>,
    pub time: i64,
    pub meta: Option<Seq<char>>,
    pub hash: Option<Seq<char>>,
    pub tag_list: Seq<Seq<char>>,
}

/// A bookmark: a saved web page with tags and flags. `shared` and `toread`
/// hold the remote protocol's literal "yes"/"no" strings; `time` is the
/// creation moment as a Unix timestamp; `meta` and `hash` are opaque values
/// the remote service supplies.
#[derive(Debug, Clone, PartialEq, Eq)]
pub struct Pin {
    pub url: String,
    pub title: String,
    pub tags: String,
    pub shared: String,
    pub toread: String,
    pub extended: Option<String>,
    pub time: i64,
    pub meta: Option<String>,
    pub hash: Option<String>,
    pub tag_list: Vec<String>,
}

impl View for Pin {
    type V = PinView;

    open spec fn view(&self) -> PinView {
        PinView {
            url: self.url@,
            title: self.title@,
            tags: self.tags@,
            shared: self.shared@,
            toread: self.toread@,
            extended: self.extended.deep_view(),
            time: self.time,
            meta: self.meta.deep_view(),
            hash: self.hash.deep_view(),
            tag_list: self.tag_list.deep_view(),
        }
    }
}

impl DeepView for Pin {
    type V = PinView;

    open spec fn deep_view(&self) -> PinView {
        self.view()
    }
}

/// A well-formed bookmark: the URL is a valid one the url crate accepts,
/// and the parsed tag list is exactly the space-split of the tag text.
pub open spec fn pin_wf(p: PinView) -> bool {
    &&& url_len_ok(p.url)
    &&& url_ok(p.url)
    &&& p.tag_list == split_sp(p.tags)
}

/// A bookmark matches an already case-folded exact query when its folded
/// URL, title or tag text contains the query as a substring.
pub open spec fn pin_matches_exact(p: PinView, q: Seq<char>) -> bool {
    ||| seq_contains(lower_of(p.url), q)
    ||| seq_contains(lower_of(p.title), q)
    ||| seq_contains(lower_of(p.tags), q)
}

/// A bookmark matches a fuzzy query when the folded query is an ordered
/// subsequence of the folded URL, title or tag text.
pub open spec fn pin_matches_fuzzy(p: PinView, q: Seq<char>) -> bool {
    ||| is_subsequence(lower_of(q), lower_of(p.url))
    ||| is_subsequence(lower_of(q), lower_of(p.title))
    ||| is_subsequence(lower_of(q), lower_of(p.tags))
}

impl Pin {
    /// A new private-or-shared, read-or-unread bookmark. The tag text is
    /// joined from `tags`; the creation time is read from the clock.
    pub fn new(
        url: String,
        title: String,
        tags: Vec<String>,
        private: bool,
        read: bool,
        desc: Option<String>,
    ) -> (p: Pin)
        requires
            url_len_ok(url@),
            url_ok(url@),
            forall|i: int| 0 <= i < tags@.len() ==> wf_tag(#[trigger] tags.deep_view()[i]),
        ensures
            pin_wf(p@),
            p@.url == url@,
            p@.title == title@,
            p@.tag_list == tags.deep_view(),
            p@.tags == join_tags(tags.deep_view()),
            p@.shared == if private { "no"@ } else { "yes"@ },
            p@.toread == if read { "yes"@ } else { "no"@ },
            p@.extended == desc.deep_view(),
            p@.meta is None,
            p@.hash is None,
    {
        let shared = if private { "no" } else { "yes" };
        let toread = if read { "yes" } else { "no" };
        let tag_text = join_tag_list(&tags);
        proof {
            lemma_split_join(tags.deep_view());
        }
        Pin {
            url,
            title,
            tags: tag_text,
            shared: String::from_str(shared),
            toread: String::from_str(toread),
            extended: desc,
            time: now_timestamp(),
            meta: None,
            hash: None,
            tag_list: tags,
        }
    }

    /// `Pin::new` behind run-time checks: `None` exactly when the URL is
    /// oversized or not valid, or a tag is empty or contains a space.
    pub fn new_checked(
        url: String,
        title: String,
        tags: Vec<String>,
        private: bool,
        read: bool,
        desc: Option<String>,
    ) -> (r: Option<Pin>)
        ensures
            r is Some <==> (url_len_ok(url@) && url_ok(url@) && forall|i: int|
                0 <= i < tags@.len() ==> wf_tag(#[trigger] tags.deep_view()[i])),
            r matches Some(p) ==> pin_wf(p@) && p@.url == url@ && p@.title == title@
                && p@.tag_list == tags.deep_view(),
    {
        if url.as_str().unicode_len() >= 0x1000_0000 {
            return None;
        }
        if !url_is_valid(url.as_str()) {
            return None;
        }
        let mut i: usize = 0;
        while i < tags.len()
            invariant
                i <= tags.len(),
                url_len_ok(url@) && url_ok(url@),
                forall|k: int| 0 <= k < i ==> wf_tag(#[trigger] tags.deep_view()[k]),
            decreases tags.len() - i,
        {
            if !tag_is_wf(tags[i].as_str()) {
                proof {
                    assert(tags.deep_view()[i as int] == tags@[i as int]@);
                }
                return None;
            }
            proof {
                assert(tags.deep_view()[i as int] == tags@[i as int]@);
            }
            i = i + 1;
        }
        Some(Pin::new(url, title, tags, private, read, desc))
    }

    /// Exact-mode match against an already case-folded query.
    pub fn contains(&self, q: &str) -> (r: bool)
        ensures
            r == pin_matches_exact(self@, q@),
    {
        str_contains(lowercase(self.url.as_str()).as_str(), q) || str_contains(
            lowercase(self.title.as_str()).as_str(),
            q,
        ) || str_contains(lowercase(self.tags.as_str()).as_str(), q)
    }

    /// Fuzzy-mode match against a raw query; both sides are case-folded
    /// here.
    pub fn contains_fuzzy(&self, q: &str) -> (r: bool)
        ensures
            r == pin_matches_fuzzy(self@, q@),
    {
        let ql = lowercase(q);
        str_subsequence(ql.as_str(), lowercase(self.url.as_str()).as_str()) || str_subsequence(
            ql.as_str(),
            lowercase(self.title.as_str()).as_str(),
        ) || str_subsequence(ql.as_str(), lowercase(self.tags.as_str()).as_str())
    }

    /// Replaces the tag list and rebuilds the tag text to match.
    pub fn set_tags(&mut self, tags: Vec<String>)
        requires
            forall|i: int| 0 <= i < tags@.len() ==> wf_tag(#[trigger] tags.deep_view()[i]),
        ensures
            final(self)@.tag_list == tags.deep_view(),
            final(self)@.tags == join_tags(tags.deep_view()),
            final(self)@.tag_list == split_sp(final(self)@.tags),
            final(self)@.url == old(self)@.url,
            final(self)@.title == old(self)@.title,
            final(self)@.shared == old(self)@.shared,
            final(self)@.toread == old(self)@.toread,
            final(self)@.extended == old(self)@.extended,
            final(self)@.time == old(self)@.time,
            final(self)@.meta == old(self)@.meta,
            final(self)@.hash == old(self)@.hash,
    {
        let tag_text = join_tag_list(&tags);
        proof {
            lemma_split_join(tags.deep_view());
        }
        self.tags = tag_text;
        self.tag_list = tags;
    }

    /// `set_tags` from borrowed tag names.
    pub fn set_tags_str(&mut self, tags: &[&str])
        requires
            forall|i: int| 0 <= i < tags@.len() ==> wf_tag(#[trigger] tags.deep_view()[i]),
        ensures
            final(self)@.tag_list == tags.deep_view(),
            final(self)@.tags == join_tags(tags.deep_view()),
            final(self)@.tag_list == split_sp(final(self)@.tags),
            final(self)@.url == old(self)@.url,
            final(self)@.title == old(self)@.title,
            final(self)@.shared == old(self)@.shared,
            final(self)@.toread == old(self)@.toread,
            final(self)@.extended == old(self)@.extended,
            final(self)@.time == old(self)@.time,
            final(self)@.meta == old(self)@.meta,
            final(self)@.hash == old(self)@.hash,
    {
        let mut owned: Vec<String> = Vec::new();
        let mut i: usize = 0;
        while i < tags.len()
            invariant
                i <= tags@.len(),
                owned@.len() == i,
                owned.deep_view() =~= tags.deep_view().take(i as int),
            decreases tags@.len() - i,
        {
            let s = String::from_str(tags[i]);
            let ghost sv = s@;
            let ghost prev = owned.deep_view();
            owned.push(s);
            proof {
                assert(sv == tags.deep_view()[i as int]);
                assert(owned@[i as int]@ == sv);
                assert forall|k: int| 0 <= k < i + 1 implies owned.deep_view()[k]
                    == tags.deep_view().take(i + 1)[k] by {
                    if k < i {
                        assert(owned.deep_view()[k] == prev[k]);
                    } else {
                        assert(owned.deep_view()[k] == owned@[k]@);
                    }
                }
                assert(owned.deep_view() =~= tags.deep_view().take(i + 1));
            }
            i = i + 1;
        }
        proof {
            assert(tags.deep_view().take(i as int) =~= tags.deep_view());
        }
        self.set_tags(owned);
    }
}

} // verus!
