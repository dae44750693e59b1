//! Identity settings: merging key-value sources and reading the author and
//! committer out of them.
use vstd::prelude::*;

verus! {

/// Who made a change, and optionally when ("<seconds> <offset>"; empty when
/// not given).
pub struct User {
    pub name: String,
    pub email: String,
    pub date: String,
}

/// The identities that a commit can be attributed to.
pub struct Config {
    pub user: User,
    pub author: User,
    pub committer: User,
}

/// The value of the last setting of `key`, if any.
pub open spec fn lookup(settings: Seq<(String, String)>, key: Seq<char>) -> Option<Seq<char>>
    decreases settings.len(),
{
    if settings.len() == 0 {
        None
    } else if settings.last().0@ == key {
        Some(settings.last().1@)
    } else {
        lookup(settings.drop_last(), key)
    }
}

/// The value of `key`, or the empty string where it is not set.
pub open spec fn setting(settings: Seq<(String, String)>, key: Seq<char>) -> Seq<char> {
    match lookup(settings, key) {
        Some(v) => v,
        None => Seq::empty(),
    }
}

/// No key is set twice.
pub open spec fn distinct_keys(settings: Seq<(String, String)>) -> bool {
    forall|i: int, j: int| 0 <= i < j < settings.len() ==> settings[i].0@ != settings[j].0@
}

/// All settings of a list of sources, the least important first.
pub open spec fn all_settings(sources: Seq<Vec<(String, String)>>) -> Seq<(String, String)> {
    sources.map_values(|s: Vec<(String, String)>| s@).flatten()
}

proof fn lemma_lookup_distinct(settings: Seq<(String, String)>, key: Seq<char>, i: int)
    requires
        distinct_keys(settings),
        0 <= i < settings.len(),
        settings[i].0@ == key,
    ensures
        lookup(settings, key) == Some(settings[i].1@),
    decreases settings.len(),
{
    if i < settings.len() - 1 {
        lemma_lookup_distinct(settings.drop_last(), key, i);
    }
}

proof fn lemma_lookup_absent(settings: Seq<(String, String)>, key: Seq<char>)
    requires
        forall|i: int| 0 <= i < settings.len() ==> (#[trigger] settings[i]).0@ != key,
    ensures
        lookup(settings, key) is None,
    decreases settings.len(),
{
    if settings.len() > 0 {
        lemma_lookup_absent(settings.drop_last(), key);
    }
}

/// Reads a setting, or the empty string where it is not set.
pub fn extract(config: &Vec<(String, String)>, key: &str) -> (r: String)
    ensures
        r@ == setting(config@, key@),
{
    let wanted = key.to_owned();
    let mut i: usize = config.len();
    assert(config@.subrange(0, i as int) =~= config@);
    while i > 0
        invariant
            i <= config@.len(),
            wanted@ == key@,
            lookup(config@, key@) == lookup(config@.subrange(0, i as int), key@),
        decreases i,
    {
        assert(config@.subrange(0, i as int).drop_last() =~= config@.subrange(0, i - 1));
        assert(config@.subrange(0, i as int).last() == config@[i - 1]);
        if config[i - 1].0 == wanted {
            return config[i - 1].1.clone();
        }
        i = i - 1;
    }
    String::new()
}

/// Merges sources given from the least to the most important: each key
/// keeps the value of its last setting.
pub fn merge_configs(sources: &Vec<Vec<(String, String)>>) -> (r: Vec<(String, String)>)
    ensures
        distinct_keys(r@),
        forall|key: Seq<char>| #[trigger] lookup(r@, key) == lookup(all_settings(sources@), key),
{
    let mut merged: Vec<(String, String)> = Vec::new();
    let mut i: usize = 0;
    let ghost f = |s: Vec<(String, String)>| s@;
    assert(sources@.subrange(0, 0).map_values(f) =~= Seq::<Seq<(String, String)>>::empty());
    while i < sources.len()
        invariant
            0 <= i <= sources@.len(),
            distinct_keys(merged@),
            forall|key: Seq<char>| #[trigger]
                lookup(merged@, key) == lookup(all_settings(sources@.subrange(0, i as int)), key),
        decreases sources@.len() - i,
    {
        let source = &sources[i];
        let ghost done = all_settings(sources@.subrange(0, i as int));
        let mut j: usize = 0;
        assert(done + source@.subrange(0, 0) =~= done);
        while j < source.len()
            invariant
                0 <= j <= source@.len(),
                distinct_keys(merged@),
                forall|key: Seq<char>| #[trigger]
                    lookup(merged@, key) == lookup(done + source@.subrange(0, j as int), key),
            decreases source@.len() - j,
        {
            let (k, v) = (source[j].0.clone(), source[j].1.clone());
            let ghost prefix = done + source@.subrange(0, j as int);
            assert(done + source@.subrange(0, j + 1) =~= prefix.push(source@[j as int]));
            let mut m: usize = 0;
            while m < merged.len() && !(merged[m].0 == k)
                invariant
                    0 <= m <= merged@.len(),
                    forall|x: int| 0 <= x < m ==> (#[trigger] merged@[x]).0@ != k@,
                decreases merged@.len() - m,
            {
                m = m + 1;
            }
            let ghost old_merged = merged@;
            if m < merged.len() {
                merged.set(m, (k, v));
                proof {
                    assert forall|key: Seq<char>| #[trigger]
                        lookup(merged@, key) == lookup(prefix.push(source@[j as int]), key) by {
                        assert(prefix.push(source@[j as int]).drop_last() =~= prefix);
                        assert(lookup(old_merged, key) == lookup(prefix, key));
                        if key == k@ {
                            lemma_lookup_distinct(merged@, key, m as int);
                        } else {
                            if exists|x: int| 0 <= x < merged@.len() && merged@[x].0@ == key {
                                let x = choose|x: int|
                                    0 <= x < merged@.len() && merged@[x].0@ == key;
                                lemma_lookup_distinct(merged@, key, x);
                                lemma_lookup_distinct(old_merged, key, x);
                            } else {
                                lemma_lookup_absent(merged@, key);
                                assert forall|x: int| 0 <= x < old_merged.len() implies (
                                #[trigger] old_merged[x]).0@ != key by {
                                    assert(merged@[x].0@ == old_merged[x].0@ || x == m);
                                }
                                lemma_lookup_absent(old_merged, key);
                            }
                        }
                    }
                }
            } else {
                merged.push((k, v));
                proof {
                    assert forall|key: Seq<char>| #[trigger]
                        lookup(merged@, key) == lookup(prefix.push(source@[j as int]), key) by {
                        assert(prefix.push(source@[j as int]).drop_last() =~= prefix);
                        assert(merged@.drop_last() =~= old_merged);
                        assert(lookup(old_merged, key) == lookup(prefix, key));
                    }
                }
            }
            j = j + 1;
        }
        proof {
            let g = |s: Vec<(String, String)>| s@;
            let a = sources@.subrange(0, i as int).map_values(g);
            assert(sources@.subrange(0, i + 1).map_values(g) =~= a.push(source@));
            a.lemma_flatten_push(source@);
            assert(source@.subrange(0, source@.len() as int) =~= source@);
        }
        i = i + 1;
    }
    assert(sources@.subrange(0, sources@.len() as int) =~= sources@);
    merged
}

/// Reads the settings of a configuration file; none are read yet.
pub fn parse_file_config(_path: &String) -> (r: Vec<(String, String)>)
    ensures
        r@.len() == 0,
{
    Vec::new()
}

impl Config {
    /// Reads the three identities out of merged settings; a missing
    /// setting reads as the empty string.
    pub fn build(raw_config: &Vec<(String, String)>) -> (r: Config)
        ensures
            r.user.name@ == setting(raw_config@, "user.name"@),
            r.user.email@ == setting(raw_config@, "user.email"@),
            r.user.date@ == setting(raw_config@, "user.date"@),
            r.author.name@ == setting(raw_config@, "author.name"@),
            r.author.email@ == setting(raw_config@, "author.email"@),
            r.author.date@ == setting(raw_config@, "author.date"@),
            r.committer.name@ == setting(raw_config@, "committer.name"@),
            r.committer.email@ == setting(raw_config@, "committer.email"@),
            r.committer.date@ == setting(raw_config@, "committer.date"@),
    {
        Config {
            user: User {
                name: extract(raw_config, "user.name"),
                email: extract(raw_config, "user.email"),
                date: extract(raw_config, "user.date"),
            },
            author: User {
                name: extract(raw_config, "author.name"),
                email: extract(raw_config, "author.email"),
                date: extract(raw_config, "author.date"),
            },
            committer: User {
                name: extract(raw_config, "committer.name"),
                email: extract(raw_config, "committer.email"),
                date: extract(raw_config, "committer.date"),
            },
        }
    }
}

} // verus!
