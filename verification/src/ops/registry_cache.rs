//! Point an image at the cache in the house, when the cache answers.
//!
//! The rewrite happens at deploy time rather than in the files: with the
//! cache address written into every stack file a dead cache would mean
//! nothing in the house can pull at all. Rewriting here keeps the files
//! naming the real origin, and a cache that does not answer costs speed
//! instead of the deploy.

use vstd::prelude::*;
use vstd::string::*;
use crate::text::{
    before_first, contains, contains_string, dec, dec_string, ends_with, join_strings, joined,
    lines, lines_of, starts_with, str_before_first, str_contains, str_ends_with, str_eq,
    str_starts_with, str_strip_prefix, string_views, strip_prefix, trim, trim_start,
    trimmed, trimmed_start, views,
};

verus! {

/// One upstream registry and the port its cache listens on.
#[derive(Debug, Clone, PartialEq, Eq)]
pub struct CacheUpstream {
    /// The registry as it appears in an image reference, e.g. `ghcr.io`;
    /// Docker Hub is written `docker.io`.
    pub registry: String,
    pub port: u16,
}

/// Where the cache lives and what it mirrors.
#[derive(Debug, Clone, PartialEq, Eq)]
pub struct CacheCfg {
    /// Host or address the containers reach it at.
    pub host: String,
    pub upstreams: Vec<CacheUpstream>,
}

/// Docker's rule for the first segment of an image reference: a registry
/// only if it has a dot or a colon, or is `localhost` — so
/// `localhost:5000/app:1` names the registry `localhost:5000`. Everything else is Docker Hub, where an image without a
/// namespace lives under `library/`.
pub open spec fn registry_split(image: Seq<char>) -> (Seq<char>, Seq<char>) {
    let first = before_first(image, '/');
    let is_registry = contains(first, "."@) || contains(first, ":"@) || first == "localhost"@;
    if is_registry && contains(image, "/"@) {
        (first, image.skip(first.len() + 1int))
    } else if contains(image, "/"@) {
        ("docker.io"@, image)
    } else {
        ("docker.io"@, "library/"@ + image)
    }
}

/// Split an image reference into (registry, path with tag or digest).
pub fn split_registry(image: &str) -> (r: (String, String))
    ensures
        (r.0@, r.1@) == registry_split(image@),
{
    let first = str_before_first(image, '/');
    let is_registry = str_contains(first, ".") || str_contains(first, ":") || str_eq(first, "localhost");
    let slash = str_contains(image, "/");
    if is_registry && slash {
        proof {
            crate::text::lemma_index_of(image@, '/');
            reveal_strlit("/");
            let i = choose|i: int| crate::text::occurs_at(image@, "/"@, i);
            assert(image@.subrange(i, i + 1)[0] == image@[i]);
            assert(image@[i] == '/');
            assert(first@.len() < image@.len());
        }
        let n = image.unicode_len();
        let path = image.substring_char(first.unicode_len() + 1, n);
        proof {
            assert(path@ =~= image@.skip(first@.len() + 1int));
        }
        (String::from_str(first), String::from_str(path))
    } else if slash {
        (String::from_str("docker.io"), String::from_str(image))
    } else {
        let mut p = String::from_str("library/");
        p.append(image);
        (String::from_str("docker.io"), p)
    }
}

pub open spec fn upstream_port(ups: Seq<CacheUpstream>, registry: Seq<char>) -> Option<u16>
    decreases ups.len(),
{
    if ups.len() == 0 {
        None
    } else if ups[0].registry@ == registry {
        Some(ups[0].port)
    } else {
        upstream_port(ups.drop_first(), registry)
    }
}

/// One line of a compose file, rewritten to the cache when it is an
/// `image:` line whose registry is mirrored, answered a moment ago, and is
/// not the one this stack signs into (the cache is anonymous: a private
/// image must keep going to its own registry).
pub open spec fn rewritten_line(
    line: Seq<char>,
    host: Seq<char>,
    ups: Seq<CacheUpstream>,
    available: Seq<Seq<char>>,
    skip: Option<Seq<char>>,
) -> Seq<char> {
    let t = trimmed_start(line);
    match strip_prefix(t, "image:"@) {
        None => line,
        Some(rest) => {
            let indent = line.take(line.len() - t.len());
            let image = trimmed(rest);
            let (registry, path) = registry_split(image);
            if image.len() == 0 || skip == Some(registry) || !available.contains(registry) {
                line
            } else {
                match upstream_port(ups, registry) {
                    Some(port) => indent + "image: "@ + host + ":"@ + dec(port as nat) + "/"@ + path,
                    None => line,
                }
            }
        },
    }
}

fn find_upstream(ups: &Vec<CacheUpstream>, registry: &str) -> (r: Option<u16>)
    ensures
        r == upstream_port(ups@, registry@),
{
    let mut i: usize = 0;
    proof {
        assert(ups@.subrange(0, ups@.len() as int) =~= ups@);
    }
    while i < ups.len()
        invariant
            i <= ups.len(),
            upstream_port(ups@, registry@) == upstream_port(ups@.subrange(i as int, ups@.len() as int), registry@),
        decreases ups.len() - i,
    {
        proof {
            assert(ups@.subrange(i as int, ups@.len() as int).drop_first() =~= ups@.subrange(i + 1, ups@.len() as int));
        }
        if str_eq(ups[i].registry.as_str(), registry) {
            return Some(ups[i].port);
        }
        i += 1;
    }
    None
}

pub proof fn lemma_trimmed_start_suffix(s: Seq<char>)
    ensures
        trimmed_start(s).len() <= s.len(),
        trimmed_start(s) == s.skip(s.len() - trimmed_start(s).len()),
    decreases s.len(),
{
    if s.len() > 0 && crate::text::is_ws(s[0]) {
        lemma_trimmed_start_suffix(s.drop_first());
        assert(s.drop_first().skip(s.drop_first().len() - trimmed_start(s).len()) =~= s.skip(s.len() - trimmed_start(s).len()));
    } else {
        assert(s.skip(0) =~= s);
    }
}

pub open spec fn opt_str(o: Option<&str>) -> Option<Seq<char>> {
    match o {
        Some(s) => Some(s@),
        None => None,
    }
}

pub fn rewrite_line(line: &str, cfg: &CacheCfg, available: &[String], skip_registry: Option<&str>) -> (r: String)
    ensures
        r@ == rewritten_line(line@, cfg.host@, cfg.upstreams@, string_views(available@), opt_str(skip_registry)),
{
    let t = trim_start(line);
    let rest = match str_strip_prefix(t, "image:") {
        Some(rest) => rest,
        None => {
            return String::from_str(line);
        },
    };
    proof {
        lemma_trimmed_start_suffix(line@);
    }
    let n = line.unicode_len();
    let indent = line.substring_char(0, n - t.unicode_len());
    let image = trim(rest);
    if image.unicode_len() == 0 {
        return String::from_str(line);
    }
    let (registry, path) = split_registry(image);
    let skipped = match skip_registry {
        Some(s) => str_eq(s, registry.as_str()),
        None => false,
    };
    if skipped {
        return String::from_str(line);
    }
    let mut avail = false;
    let mut i: usize = 0;
    while i < available.len()
        invariant
            i <= available.len(),
            avail == string_views(available@).take(i as int).contains(registry@),
        decreases available.len() - i,
    {
        proof {
            assert(string_views(available@).take(i + 1) =~= string_views(available@).take(i as int).push(available@[i as int]@));
        }
        if str_eq(available[i].as_str(), registry.as_str()) {
            avail = true;
        }
        proof {
            let a = string_views(available@).take(i as int);
            if avail && !a.contains(registry@) {
                assert(a.push(available@[i as int]@)[i as int] == registry@);
            }
            if a.contains(registry@) {
                let k = choose|k: int| 0 <= k < a.len() && a[k] == registry@;
                assert(a.push(available@[i as int]@)[k] == registry@);
            }
            if !avail && a.push(available@[i as int]@).contains(registry@) {
                let k = choose|k: int| 0 <= k < i + 1 && a.push(available@[i as int]@)[k] == registry@;
                assert(k < i);
                assert(a[k] == registry@);
            }
        }
        i += 1;
    }
    proof {
        assert(string_views(available@).take(available.len() as int) =~= string_views(available@));
    }
    if !avail {
        return String::from_str(line);
    }
    match find_upstream(&cfg.upstreams, registry.as_str()) {
        Some(port) => {
            let mut s = String::from_str(indent);
            s.append("image: ");
            s.append(cfg.host.as_str());
            s.append(":");
            let d = dec_string(port as u64);
            s.append(d.as_str());
            s.append("/");
            s.append(path.as_str());
            proof {
                assert(indent@ =~= line@.take(line@.len() - t@.len()));
            }
            s
        },
        None => String::from_str(line),
    }
}

pub open spec fn rewritten_lines(
    ls: Seq<Seq<char>>,
    host: Seq<char>,
    ups: Seq<CacheUpstream>,
    available: Seq<Seq<char>>,
    skip: Option<Seq<char>>,
) -> Seq<Seq<char>> {
    ls.map_values(|l: Seq<char>| rewritten_line(l, host, ups, available, skip))
}

/// Rewrite the `image:` lines of a compose file to point at the cache.
/// A registry not among `available` is left alone, so a half-broken cache
/// degrades per registry rather than all at once.
pub fn rewrite_compose(content: &str, cfg: &CacheCfg, available: &[String], skip_registry: Option<&str>) -> (r: String)
    ensures
        r@ == joined(
            rewritten_lines(lines_of(content@), cfg.host@, cfg.upstreams@, string_views(available@), opt_str(skip_registry)),
            "\n"@,
        ) + if ends_with(content@, "\n"@) {
            "\n"@
        } else {
            Seq::empty()
        },
{
    let ls = lines(content);
    let ghost lv = views(ls@);
    let mut out: Vec<String> = Vec::new();
    let mut i: usize = 0;
    while i < ls.len()
        invariant
            i <= ls.len(),
            lv == views(ls@),
            out@.len() == i,
            forall|k: int| 0 <= k < i ==> (#[trigger] out@[k])@ == rewritten_line(lv[k], cfg.host@, cfg.upstreams@, string_views(available@), opt_str(skip_registry)),
        decreases ls.len() - i,
    {
        out.push(rewrite_line(ls[i], cfg, available, skip_registry));
        i += 1;
    }
    proof {
        assert(string_views(out@) =~= rewritten_lines(lv, cfg.host@, cfg.upstreams@, string_views(available@), opt_str(skip_registry)));
    }
    let mut s = join_strings(out.as_slice(), "\n");
    if str_ends_with(content, "\n") {
        s.append("\n");
    }
    s
}

} // verus!
