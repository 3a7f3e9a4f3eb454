//! Generations, and which of them stay installed under a limit.

use vstd::prelude::*;
use vstd::string::StringExecFns;

verus! {

/// One bootable state of the system. A generation is described once and not
/// changed afterwards.
pub struct Generation {
    /// Number of the generation; a higher number is a newer generation.
    pub version: u64,
    /// The path that identifies the system's content.
    pub toplevel: String,
    /// Where the kernel is found.
    pub kernel: String,
    /// Where the initrd is found.
    pub initrd: String,
    /// The kernel's command line, word by word.
    pub cmdline: Vec<String>,
    /// Variants of the generation that can be booted in its place.
    pub specialisations: Vec<Generation>,
}

/// A generation as a mathematical value.
pub struct GenerationView {
    pub version: u64,
    pub toplevel: Seq<char>,
    pub kernel: Seq<char>,
    pub initrd: Seq<char>,
    pub cmdline: Seq<Seq<char>>,
    pub specialisations: Seq<GenerationView>,
}

impl View for Generation {
    type V = GenerationView;

    open spec fn view(&self) -> GenerationView
        decreases self, 1nat,
    {
        GenerationView {
            version: self.version,
            toplevel: self.toplevel@,
            kernel: self.kernel@,
            initrd: self.initrd@,
            cmdline: self.cmdline.deep_view(),
            specialisations: self.nested(),
        }
    }
}

/// The words of a command line, each parted from the next by one blank, in
/// their order.
pub open spec fn joined(words: Seq<Seq<char>>) -> Seq<char>
    decreases words.len(),
{
    if words.len() == 0 {
        Seq::empty()
    } else if words.len() == 1 {
        words[0]
    } else {
        joined(words.drop_last()) + " "@ + words.last()
    }
}

/// Writes the words of a command line as one line.
pub fn join(words: &Vec<String>) -> (line: String)
    ensures
        line@ == joined(words.deep_view()),
{
    let mut line = String::new();
    let mut i: usize = 0;
    while i < words.len()
        invariant
            i <= words.len(),
            line@ == joined(words.deep_view().take(i as int)),
        decreases words.len() - i,
    {
        if i > 0 {
            line.append(" ");
        }
        line.append(words[i].as_str());
        proof {
            let before = words.deep_view().take(i as int);
            let after = words.deep_view().take(i + 1);
            assert(after.drop_last() =~= before);
            assert(after.last() == words[i as int]@);
            if i == 0 {
                assert(line@ =~= words[i as int]@);
            }
        }
        i += 1;
    }
    assert(words.deep_view().take(i as int) =~= words.deep_view());
    line
}

impl Generation {
    /// The specialisations as mathematical values.
    pub closed spec fn nested(&self) -> Seq<GenerationView>
        decreases self, 0nat,
    {
        Seq::new(
            self.specialisations@.len(),
            |i: int|
                if 0 <= i < self.specialisations@.len() {
                    self.specialisations@[i]@
                } else {
                    arbitrary()
                },
        )
    }

    /// The specialisations as mathematical values are the values of the
    /// specialisations, in their order.
    pub proof fn lemma_nested(&self)
        ensures
            self.nested().len() == self.specialisations@.len(),
            forall|i: int|
                0 <= i < self.specialisations@.len() ==> #[trigger] self.nested()[i]
                    == self.specialisations@[i]@,
    {
    }
}

/// A generation together with what its references resolve to.
pub struct Resolved {
    pub generation: Generation,
    /// Content of the kernel.
    pub kernel: Vec<u8>,
    /// Content of the initrd.
    pub initrd: Vec<u8>,
    /// Content of the file that identifies the operating system.
    pub os_release: Vec<u8>,
}

/// A resolved generation as a mathematical value.
pub struct ResolvedView {
    pub generation: GenerationView,
    pub kernel: Seq<u8>,
    pub initrd: Seq<u8>,
    pub os_release: Seq<u8>,
}

impl View for Resolved {
    type V = ResolvedView;

    open spec fn view(&self) -> ResolvedView {
        ResolvedView {
            generation: self.generation@,
            kernel: self.kernel@,
            initrd: self.initrd@,
            os_release: self.os_release@,
        }
    }
}

impl Resolved {
    /// The version of the generation.
    pub open spec fn version(self) -> u64 {
        self.generation.version
    }
}

/// Whether the versions never rise along the sequence.
pub open spec fn newest_first(s: Seq<Resolved>) -> bool {
    forall|i: int, j: int| 0 <= i <= j < s.len() ==> s[i].version() >= s[j].version()
}

/// Whether no version occurs twice.
pub open spec fn distinct_versions(s: Seq<Resolved>) -> bool {
    forall|i: int, j: int| 0 <= i < j < s.len() ==> s[i].version() != s[j].version()
}

/// `sorted` with `item` put behind the last generation that is not older than
/// it.
pub open spec fn placed(sorted: Seq<Resolved>, item: Resolved) -> Seq<Resolved>
    decreases sorted.len(),
{
    if sorted.len() == 0 || sorted.last().version() >= item.version() {
        sorted.push(item)
    } else {
        placed(sorted.drop_last(), item).push(sorted.last())
    }
}

/// The generations from the newest to the oldest; those of one version keep
/// their order.
pub open spec fn by_age(s: Seq<Resolved>) -> Seq<Resolved>
    decreases s.len(),
{
    if s.len() == 0 {
        s
    } else {
        placed(by_age(s.drop_last()), s.last())
    }
}

/// The generations that stay installed under a limit: the newest ones, as
/// many as the limit allows, the newest first.
pub open spec fn retained(s: Seq<Resolved>, limit: nat) -> Seq<Resolved> {
    if limit < s.len() {
        by_age(s).take(limit as int)
    } else {
        by_age(s)
    }
}

/// Where `placed` puts an item: at `at`, if all before are at least as new and
/// all from there on are older.
proof fn lemma_placed_at(sorted: Seq<Resolved>, item: Resolved, at: int)
    requires
        0 <= at <= sorted.len(),
        forall|i: int| 0 <= i < at ==> sorted[i].version() >= item.version(),
        forall|i: int| at <= i < sorted.len() ==> sorted[i].version() < item.version(),
    ensures
        placed(sorted, item) == sorted.insert(at, item),
    decreases sorted.len(),
{
    if sorted.len() == 0 || sorted.last().version() >= item.version() {
        assert(at == sorted.len());
        assert(sorted.push(item) =~= sorted.insert(at, item));
    } else {
        lemma_placed_at(sorted.drop_last(), item, at);
        assert(sorted.drop_last().insert(at, item).push(sorted.last()) =~= sorted.insert(
            at,
            item,
        ));
    }
}

/// Placing keeps the length, the items and the order by age.
pub proof fn lemma_placed(sorted: Seq<Resolved>, item: Resolved)
    ensures
        placed(sorted, item).len() == sorted.len() + 1,
        placed(sorted, item).to_multiset() == sorted.to_multiset().insert(item),
        newest_first(sorted) ==> newest_first(placed(sorted, item)),
    decreases sorted.len(),
{
    broadcast use vstd::seq_lib::group_to_multiset_ensures;

    if sorted.len() == 0 || sorted.last().version() >= item.version() {
    } else {
        let front = sorted.drop_last();
        lemma_placed(front, item);
        assert(sorted =~= front.push(sorted.last()));
        assert(placed(sorted, item).to_multiset() =~= sorted.to_multiset().insert(item));
        if newest_first(sorted) {
            let p = placed(front, item);
            let r = placed(sorted, item);
            assert(newest_first(front));
            assert forall|i: int| 0 <= i < p.len() implies p[i].version()
                >= sorted.last().version() by {
                assert(p.to_multiset().count(p[i]) > 0);
                if p[i] != item {
                    assert(front.to_multiset().count(p[i]) > 0);
                    let k = choose|k: int| 0 <= k < front.len() && front[k] == p[i];
                    assert(sorted[k] == front[k]);
                }
            }
            assert forall|i: int, j: int| 0 <= i <= j < r.len() implies r[i].version()
                >= r[j].version() by {
                if j < p.len() {
                    assert(r[i] == p[i] && r[j] == p[j]);
                }
            }
        }
    }
}

/// Ordering by age keeps the length and the items, and orders them.
pub proof fn lemma_by_age(s: Seq<Resolved>)
    ensures
        by_age(s).len() == s.len(),
        by_age(s).to_multiset() == s.to_multiset(),
        newest_first(by_age(s)),
    decreases s.len(),
{
    broadcast use vstd::seq_lib::group_to_multiset_ensures;

    if s.len() == 0 {
    } else {
        lemma_by_age(s.drop_last());
        lemma_placed(by_age(s.drop_last()), s.last());
        assert(s =~= s.drop_last().push(s.last()));
    }
}

/// Orders generations from the newest to the oldest and keeps the first
/// `limit` of them.
pub fn retain(generations: Vec<Resolved>, limit: usize) -> (kept: Vec<Resolved>)
    ensures
        kept@ == retained(generations@, limit as nat),
{
    let ghost all = generations@;
    let mut rest = generations;
    let mut sorted: Vec<Resolved> = Vec::new();
    let mut done: Ghost<int> = Ghost(0);
    while rest.len() > 0
        invariant
            0 <= done@ <= all.len(),
            rest@ == all.skip(done@),
            sorted@ == by_age(all.take(done@)),
        decreases rest.len(),
    {
        let item = rest.remove(0);
        let mut at: usize = sorted.len();
        while at > 0 && sorted[at - 1].generation.version < item.generation.version
            invariant
                at <= sorted.len(),
                forall|i: int| at <= i < sorted.len() ==> sorted[i].version() < item.version(),
            decreases at,
        {
            at -= 1;
        }
        proof {
            lemma_by_age(all.take(done@));
            lemma_placed_at(sorted@, item, at as int);
            assert(all.take(done@ + 1).drop_last() =~= all.take(done@));
            assert(all.take(done@ + 1).last() == item);
            assert(rest@ =~= all.skip(done@ + 1));
            done@ = done@ + 1;
        }
        sorted.insert(at, item);
    }
    proof {
        assert(all.take(done@) =~= all);
        lemma_by_age(all);
    }
    if limit < sorted.len() {
        sorted.truncate(limit);
    }
    sorted
}

} // verus!
