//! What is known of the hosts that files come from.
use vstd::prelude::*;

verus! {

/// What `reqwest::Url::parse` makes of a text: nothing where it is no absolute URL,
/// else the host that `reqwest::Url::host_str` then gives, where the URL has one.
pub uninterp spec fn parsed_url(url: Seq<char>) -> Option<Option<Seq<char>>>;

/// The text of an optional string.
pub open spec fn host_text(host: Option<String>) -> Option<Seq<char>> {
    match host {
        None => None,
        Some(h) => Some(h@),
    }
}

/// Parses a text with `reqwest::Url::parse` and reads the host with
/// `reqwest::Url::host_str`. Both depend on the text alone; which texts are URLs,
/// and what their hosts are, is left to them.
#[verifier::external_body]
fn parse_url(url: &str) -> (r: Option<Option<String>>)
    ensures
        match r {
            None => parsed_url(url@) is None,
            Some(host) => parsed_url(url@) == Some(host_text(host)),
        },
{
    match reqwest::Url::parse(url) {
        Ok(u) => Some(u.host_str().map(|h| h.to_owned())),
        Err(_) => None,
    }
}

/// Whether `url` is an absolute URL.
pub fn is_absolute_url(url: &str) -> (b: bool)
    ensures
        b == parsed_url(url@) is Some,
{
    match parse_url(url) {
        Some(_) => true,
        None => false,
    }
}

/// The name under which a URL's host is kept in mind, given what the URL parses
/// to: the host, or the text itself where there is none.
pub open spec fn host_key(url: Seq<char>, parsed: Option<Option<Seq<char>>>) -> Seq<char> {
    match parsed {
        Some(Some(host)) => host,
        _ => url,
    }
}

/// The name under which a URL's host is kept in mind, given what the URL parses to.
pub fn host_or_text(url: &str, parsed: Option<Option<String>>) -> (h: String)
    ensures
        h@ == host_key(
            url@,
            match parsed {
                None => None,
                Some(host) => Some(host_text(host)),
            },
        ),
{
    match parsed {
        Some(Some(host)) => host,
        _ => url.to_owned(),
    }
}

/// The name under which a URL's host is kept in mind.
pub fn host_of(url: &str) -> (h: String)
    ensures
        h@ == host_key(url@, parsed_url(url@)),
{
    host_or_text(url, parse_url(url))
}

/// For each host that has been asked, whether it serves ranges, so that it need
/// not be asked again for the next file.
#[derive(Clone, Debug, PartialEq, Eq)]
pub struct HostCache {
    pub known: Vec<(String, bool)>,
}

/// `host` stands at place `i` of `known`.
pub open spec fn place(known: Seq<(String, bool)>, host: Seq<char>, i: int) -> bool {
    0 <= i < known.len() && known[i].0@ == host
}

impl HostCache {
    /// No host is listed twice.
    pub open spec fn wf(self) -> bool {
        forall|i: int, j: int|
            0 <= i < j < self.known@.len() ==> (#[trigger] self.known@[i]).0@ != (
            #[trigger] self.known@[j]).0@
    }

    /// `host` has been asked.
    pub open spec fn knows(self, host: Seq<char>) -> bool {
        exists|i: int| #[trigger] place(self.known@, host, i)
    }

    /// What is known: for each host whether it serves ranges.
    pub open spec fn facts(self) -> Map<Seq<char>, bool> {
        Map::new(
            |host: Seq<char>| self.knows(host),
            |host: Seq<char>|
                {
                    let i = choose|i: int| #[trigger] place(self.known@, host, i);
                    self.known@[i].1
                },
        )
    }

    /// Of a listed host the fact is the one listed.
    proof fn lemma_fact(self, i: int)
        requires
            self.wf(),
            0 <= i < self.known@.len(),
        ensures
            self.facts().contains_key(self.known@[i].0@),
            self.facts()[self.known@[i].0@] == self.known@[i].1,
    {
        let host = self.known@[i].0@;
        assert(place(self.known@, host, i));
        let j = choose|j: int| #[trigger] place(self.known@, host, j);
        assert(place(self.known@, host, j));
        if j < i {
            assert(self.known@[j].0@ != self.known@[i].0@);
        } else if i < j {
            assert(self.known@[i].0@ != self.known@[j].0@);
        }
    }

    /// Nothing is known yet.
    pub fn new() -> (c: Self)
        ensures
            c.wf(),
            c.facts() == Map::<Seq<char>, bool>::empty(),
    {
        let c = HostCache { known: Vec::new() };
        assert(c.facts() =~= Map::<Seq<char>, bool>::empty());
        c
    }

    /// Whether `host` serves ranges, where that is known.
    pub fn get(&self, host: &String) -> (r: Option<bool>)
        requires
            self.wf(),
        ensures
            r == (if self.facts().contains_key(host@) {
                Some(self.facts()[host@])
            } else {
                None
            }),
    {
        let n: usize = self.known.len();
        let mut i: usize = 0;
        while i < n
            invariant
                self.wf(),
                n == self.known@.len(),
                0 <= i <= n,
                forall|j: int| 0 <= j < i ==> (#[trigger] self.known@[j]).0@ != host@,
            decreases n - i,
        {
            if self.known[i].0 == *host {
                proof {
                    self.lemma_fact(i as int);
                }
                return Some(self.known[i].1);
            }
            i = i + 1;
        }
        None
    }

    /// Forgets what is known of `host`.
    pub fn remove(&mut self, host: &String)
        requires
            old(self).wf(),
        ensures
            final(self).wf(),
            final(self).facts() == old(self).facts().remove(host@),
    {
        let n: usize = self.known.len();
        let mut i: usize = 0;
        let ghost before = *self;
        while i < n
            invariant
                *self == before,
                before.wf(),
                n == self.known@.len(),
                0 <= i <= n,
                forall|j: int| 0 <= j < i ==> (#[trigger] self.known@[j]).0@ != host@,
                before == *old(self),
            decreases n - i,
        {
            if self.known[i].0 == *host {
                let _ = self.known.remove(i);
                proof {
                    self.lemma_without(before, i as int);
                }
                return;
            }
            i = i + 1;
        }
        assert(self.facts() =~= before.facts().remove(host@)) by {
            assert(!before.knows(host@));
        }
    }

    /// Taking out the entry at `i` takes out that host's fact and no other.
    proof fn lemma_without(self, before: HostCache, i: int)
        requires
            before.wf(),
            0 <= i < before.known@.len(),
            self.known@ == before.known@.remove(i),
        ensures
            self.wf(),
            self.facts() == before.facts().remove(before.known@[i].0@),
    {
        let b = before.known@;
        let a = self.known@;
        let gone = b[i].0@;
        assert forall|p: int, q: int| 0 <= p < q < a.len() implies (#[trigger] a[p]).0@ != (
        #[trigger] a[q]).0@ by {
            let p0 = if p < i {
                p
            } else {
                p + 1
            };
            let q0 = if q < i {
                q
            } else {
                q + 1
            };
            assert(a[p] == b[p0] && a[q] == b[q0]);
        }
        assert forall|host: Seq<char>| self.knows(host) <==> before.knows(host) && host != gone by {
            if self.knows(host) {
                let p = choose|p: int| #[trigger] place(a, host, p);
                let p0 = if p < i {
                    p
                } else {
                    p + 1
                };
                assert(a[p] == b[p0]);
                assert(place(b, host, p0));
                if p0 < i {
                    assert(b[p0].0@ != b[i].0@);
                } else {
                    assert(b[i].0@ != b[p0].0@);
                }
            }
            if before.knows(host) && host != gone {
                let p = choose|p: int| #[trigger] place(b, host, p);
                let p1 = if p < i {
                    p
                } else {
                    p - 1
                };
                assert(a[p1] == b[p]);
                assert(place(a, host, p1));
            }
        }
        assert forall|host: Seq<char>| self.knows(host) implies self.facts()[host]
            == before.facts()[host] by {
            let p = choose|p: int| #[trigger] place(a, host, p);
            assert(place(a, host, p));
            self.lemma_fact(p);
            let p0 = if p < i {
                p
            } else {
                p + 1
            };
            assert(a[p] == b[p0]);
            before.lemma_fact(p0);
        }
        assert(self.facts() =~= before.facts().remove(gone));
    }

    /// Keeps in mind whether `host` serves ranges.
    pub fn insert(&mut self, host: String, range_ok: bool)
        requires
            old(self).wf(),
        ensures
            final(self).wf(),
            final(self).facts() == old(self).facts().insert(host@, range_ok),
    {
        self.remove(&host);
        let ghost before = *self;
        proof {
            assert(!before.facts().contains_key(host@));
            assert forall|i: int| 0 <= i < before.known@.len() implies (
            #[trigger] before.known@[i]).0@ != host@ by {
                before.lemma_fact(i);
            }
        }
        let ghost h = host@;
        self.known.push((host, range_ok));
        proof {
            let b = before.known@;
            let a = self.known@;
            assert(a == b.push((host, range_ok)));
            self.lemma_fact(b.len() as int);
            assert forall|k: Seq<char>| k != h implies self.knows(k) == before.knows(k) by {
                if before.knows(k) {
                    let p = choose|p: int| #[trigger] place(b, k, p);
                    assert(a[p] == b[p]);
                    assert(place(a, k, p));
                }
                if self.knows(k) {
                    let p = choose|p: int| #[trigger] place(a, k, p);
                    assert(p != b.len());
                    assert(place(b, k, p));
                }
            }
            assert forall|k: Seq<char>| k != h && before.knows(k) implies self.facts()[k]
                == before.facts()[k] by {
                let p = choose|p: int| #[trigger] place(b, k, p);
                assert(a[p] == b[p]);
                before.lemma_fact(p);
                self.lemma_fact(p);
            }
            assert(self.facts() =~= before.facts().insert(h, range_ok));
            assert(before.facts().insert(h, range_ok) =~= old(self).facts().insert(h, range_ok));
        }
    }
}

/// Files from one host share what is known of it; a text without a host stands for itself.
pub proof fn law_same_host_same_name(a: Seq<char>, b: Seq<char>, host: Seq<char>)
    ensures
        host_key(a, Some(Some(host))) == host_key(b, Some(Some(host))),
        host_key(a, Some(Some(host))) == host,
        host_key(a, None) == a,
        host_key(a, Some(None)) == a,
{
}

/// What is known of a host is what stands beside it in the list, and of no other host is
/// anything known.
pub proof fn law_facts_are_what_is_listed(c: HostCache, host: Seq<char>, i: int)
    requires
        c.wf(),
    ensures
        0 <= i < c.known@.len() && c.known@[i].0@ == host ==> c.facts().contains_key(host)
            && c.facts()[host] == c.known@[i].1,
        (forall|j: int| 0 <= j < c.known@.len() ==> (#[trigger] c.known@[j]).0@ != host)
            ==> !c.facts().contains_key(host),
{
    if 0 <= i < c.known@.len() && c.known@[i].0@ == host {
        c.lemma_fact(i);
    }
}

} // verus!
