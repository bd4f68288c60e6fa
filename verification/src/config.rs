//! What a processor is set up with: the namespace of the directives, and per-host
//! settings for the requests that fetch fragments.

use vstd::prelude::*;
use vstd::string::*;

verus! {

/// How requests to one host are to be sent. The transport reads it; the processor only
/// carries it.
#[derive(Debug)]
pub struct BackendConfiguration {
    /// The backend to send to, in place of the host's own name.
    pub name: Option<String>,
    /// Whether requests to this host bypass the shared cache.
    pub pass: bool,
    /// For how many seconds a response may be cached.
    pub ttl: Option<u32>,
}

/// The settings of a host as contracts see them.
pub struct BackendView {
    pub name: Option<Seq<char>>,
    pub pass: bool,
    pub ttl: Option<u32>,
}

impl View for BackendConfiguration {
    type V = BackendView;

    open spec fn view(&self) -> BackendView {
        BackendView {
            name: match self.name {
                Some(name) => Some(name@),
                None => None,
            },
            pass: self.pass,
            ttl: self.ttl,
        }
    }
}

impl Clone for BackendConfiguration {
    fn clone(&self) -> (copy: Self)
        ensures
            copy@ == self@,
    {
        BackendConfiguration {
            name: match &self.name {
                Some(name) => Some(name.clone()),
                None => None,
            },
            pass: self.pass,
            ttl: self.ttl,
        }
    }
}

impl Default for BackendConfiguration {
    fn default() -> (backend: Self)
        ensures
            backend@ == (BackendView { name: None, pass: false, ttl: None }),
    {
        BackendConfiguration { name: None, pass: false, ttl: None }
    }
}

/// The settings of one host.
#[derive(Debug)]
struct BackendEntry {
    host: String,
    backend: BackendConfiguration,
}

/// The settings of a processor.
#[derive(Debug)]
pub struct Configuration {
    namespace: String,
    backends: Vec<BackendEntry>,
}

/// A configuration as contracts see it.
pub struct ConfigurationView {
    /// The prefix of the directives: only `<namespace:tag>` is a directive.
    pub namespace: Seq<char>,
    /// The settings by host, looked up by the exact name.
    pub backends: Map<Seq<char>, BackendView>,
}

/// The first index from `from` on at which the settings of `host` stand, if any.
spec fn host_index(entries: Seq<BackendEntry>, host: Seq<char>, from: int) -> Option<int>
    decreases entries.len() - from,
{
    if from < 0 || from >= entries.len() {
        None
    } else if entries[from].host@ == host {
        Some(from)
    } else {
        host_index(entries, host, from + 1)
    }
}

spec fn backends_of(entries: Seq<BackendEntry>) -> Map<Seq<char>, BackendView> {
    Map::new(
        |host: Seq<char>| host_index(entries, host, 0) is Some,
        |host: Seq<char>| entries[host_index(entries, host, 0)->0].backend@,
    )
}

proof fn lemma_host_index_bounds(entries: Seq<BackendEntry>, host: Seq<char>, from: int)
    requires
        0 <= from,
    ensures
        match host_index(entries, host, from) {
            Some(i) => from <= i < entries.len() && entries[i].host@ == host,
            None => forall|i: int| from <= i < entries.len() ==> entries[i].host@ != host,
        },
    decreases entries.len() - from,
{
    if 0 <= from < entries.len() && entries[from].host@ != host {
        lemma_host_index_bounds(entries, host, from + 1);
    }
}

proof fn lemma_host_index_same_hosts(
    before: Seq<BackendEntry>,
    after: Seq<BackendEntry>,
    host: Seq<char>,
    from: int,
)
    requires
        before.len() == after.len(),
        forall|i: int| 0 <= i < before.len() ==> before[i].host@ == after[i].host@,
    ensures
        host_index(after, host, from) == host_index(before, host, from),
    decreases before.len() - from,
{
    if 0 <= from < before.len() && before[from].host@ != host {
        lemma_host_index_same_hosts(before, after, host, from + 1);
    }
}

proof fn lemma_host_index_push(
    entries: Seq<BackendEntry>,
    entry: BackendEntry,
    host: Seq<char>,
    from: int,
)
    requires
        0 <= from <= entries.len(),
    ensures
        host_index(entries.push(entry), host, from) == match host_index(entries, host, from) {
            Some(i) => Some(i),
            None => if entry.host@ == host {
                Some(entries.len() as int)
            } else {
                None
            },
        },
    decreases entries.len() - from,
{
    let pushed = entries.push(entry);
    if from < entries.len() {
        assert(pushed[from] == entries[from]);
        if entries[from].host@ != host {
            lemma_host_index_push(entries, entry, host, from + 1);
        }
    } else {
        assert(pushed[from] == entry);
        assert(host_index(pushed, host, from + 1) is None);
    }
}

impl View for Configuration {
    type V = ConfigurationView;

    closed spec fn view(&self) -> ConfigurationView {
        ConfigurationView { namespace: self.namespace@, backends: backends_of(self.backends@) }
    }
}

impl Clone for Configuration {
    fn clone(&self) -> (copy: Self)
        ensures
            copy@ == self@,
            copy@.backends.dom().finite(),
    {
        proof {
            use_type_invariant(self);
        }
        let mut backends: Vec<BackendEntry> = Vec::new();
        let mut i: usize = 0;
        while i < self.backends.len()
            invariant
                i <= self.backends@.len(),
                backends@.len() == i,
                forall|k: int|
                    0 <= k < i ==> (#[trigger] backends@[k]).host@ == self.backends@[k].host@
                        && backends@[k].backend@ == self.backends@[k].backend@,
            decreases self.backends@.len() - i,
        {
            backends.push(
                BackendEntry {
                    host: self.backends[i].host.clone(),
                    backend: self.backends[i].backend.clone(),
                },
            );
            i = i + 1;
        }
        proof {
            assert forall|h: Seq<char>|
                host_index(backends@, h, 0) == host_index(self.backends@, h, 0) by {
                lemma_host_index_same_hosts(self.backends@, backends@, h, 0);
            }
            assert forall|h: Seq<char>| host_index(self.backends@, h, 0) is Some implies 0 <= (
            host_index(self.backends@, h, 0)->0) < self.backends@.len() by {
                lemma_host_index_bounds(self.backends@, h, 0);
            }
            assert(backends_of(backends@) =~= backends_of(self.backends@));
        }
        Configuration { namespace: self.namespace.clone(), backends }
    }
}

impl Default for Configuration {
    /// The namespace `esi`, and no settings for any host.
    fn default() -> (configuration: Self)
        ensures
            configuration@.namespace == "esi"@,
            configuration@.backends == Map::<Seq<char>, BackendView>::empty(),
            configuration@.backends.dom().finite(),
    {
        let backends: Vec<BackendEntry> = Vec::new();
        proof {
            reveal_strlit("esi");
            assert(backends_of(backends@) =~= Map::<Seq<char>, BackendView>::empty());
        }
        Configuration { namespace: "esi".to_owned(), backends }
    }
}

impl Configuration {
    #[verifier::type_invariant]
    spec fn in_order(&self) -> bool {
        &&& self.namespace@.len() > 0
        &&& backends_of(self.backends@).dom().finite()
    }

    /// The namespace of the directives.
    pub fn namespace(&self) -> (namespace: &str)
        ensures
            namespace@ == self@.namespace,
            namespace@.len() > 0,
    {
        proof {
            use_type_invariant(self);
        }
        self.namespace.as_str()
    }

    /// The settings for requests to `host`, if any were made.
    pub fn backend(&self, host: &str) -> (backend: Option<&BackendConfiguration>)
        ensures
            match backend {
                Some(backend) => self@.backends.contains_key(host@) && self@.backends[host@]
                    == backend@,
                None => !self@.backends.contains_key(host@),
            },
    {
        match self.find(host) {
            Some(i) => Some(&self.backends[i].backend),
            None => None,
        }
    }

    fn find(&self, host: &str) -> (found: Option<usize>)
        ensures
            match found {
                Some(i) => i < self.backends@.len() && host_index(self.backends@, host@, 0) == Some(
                    i as int,
                ),
                None => host_index(self.backends@, host@, 0) is None,
            },
    {
        let wanted = host.to_owned();
        let mut i: usize = 0;
        while i < self.backends.len()
            invariant
                i <= self.backends@.len(),
                wanted@ == host@,
                host_index(self.backends@, host@, 0) == host_index(self.backends@, host@, i as int),
            decreases self.backends@.len() - i,
        {
            if self.backends[i].host == wanted {
                return Some(i);
            }
            i = i + 1;
        }
        None
    }

    /// Sets the namespace by which directives are told from other markup: with `test`,
    /// only tags like `<test:include>` are directives.
    pub fn with_namespace(self, namespace: &str) -> (configuration: Self)
        requires
            namespace@.len() > 0,
        ensures
            configuration@.namespace == namespace@,
            configuration@.backends == self@.backends,
            configuration@.backends.dom().finite(),
    {
        proof {
            use_type_invariant(&self);
        }
        Configuration { namespace: namespace.to_owned(), backends: self.backends }
    }

    /// Names the backend to use for requests to `host`, and leaves the other settings of
    /// that host as they are.
    pub fn with_backend_override(self, host: &str, backend: &str) -> (configuration: Self)
        ensures
            configuration@.namespace == self@.namespace,
            configuration@.backends == self@.backends.insert(
                host@,
                if self@.backends.contains_key(host@) {
                    BackendView { name: Some(backend@), ..self@.backends[host@] }
                } else {
                    BackendView { name: Some(backend@), pass: false, ttl: None }
                },
            ),
            configuration@.backends.dom().finite(),
    {
        let settings = match self.find(host) {
            Some(i) => BackendConfiguration {
                name: Some(backend.to_owned()),
                pass: self.backends[i].backend.pass,
                ttl: self.backends[i].backend.ttl,
            },
            None => BackendConfiguration { name: Some(backend.to_owned()), pass: false, ttl: None },
        };
        self.with_backend(host, settings)
    }

    /// Sets how requests to `host` are sent, in place of any earlier settings of that host.
    pub fn with_backend(self, host: &str, backend: BackendConfiguration) -> (configuration: Self)
        ensures
            configuration@.namespace == self@.namespace,
            configuration@.backends == self@.backends.insert(host@, backend@),
            configuration@.backends.dom().finite(),
    {
        proof {
            use_type_invariant(&self);
        }
        let found = self.find(host);
        let ghost before = self.backends@;
        let entry = BackendEntry { host: host.to_owned(), backend };
        let mut backends = self.backends;
        match found {
            Some(i) => {
                backends.set(i, entry);
                proof {
                    let after = backends@;
                    lemma_host_index_bounds(before, host@, 0);
                    assert forall|h: Seq<char>|
                        host_index(after, h, 0) == host_index(before, h, 0) && (host_index(
                            before,
                            h,
                            0,
                        ) matches Some(j) ==> 0 <= j < before.len() && before[j].host@ == h) by {
                        lemma_host_index_same_hosts(before, after, h, 0);
                        lemma_host_index_bounds(before, h, 0);
                    }
                    assert(backends_of(after) =~= backends_of(before).insert(host@, backend@));
                }
            },
            None => {
                backends.push(entry);
                proof {
                    assert forall|h: Seq<char>|
                        host_index(before.push(entry), h, 0) == match host_index(before, h, 0) {
                            Some(i) => Some(i),
                            None => if entry.host@ == h {
                                Some(before.len() as int)
                            } else {
                                None
                            },
                        } by {
                        lemma_host_index_push(before, entry, h, 0);
                    }
                    assert forall|h: Seq<char>| host_index(before, h, 0) is Some implies 0 <= (
                    host_index(before, h, 0)->0) < before.len() by {
                        lemma_host_index_bounds(before, h, 0);
                    }
                    assert(backends_of(before.push(entry)) =~= backends_of(before).insert(
                        host@,
                        backend@,
                    ));
                }
            },
        }
        assert(backends_of(backends@) =~= backends_of(before).insert(host@, backend@));
        assert(backends_of(backends@).dom() =~= backends_of(before).dom().insert(host@));
        Configuration { namespace: self.namespace, backends }
    }
}

} // verus!
