//! Mojang launcher metadata: the version manifest and a version's JSON, as
//! plain values, and what is picked out of them.
use vstd::prelude::*;

use crate::mapping::download::MappingLoadError;
use crate::text::chars_of;

verus! {

/// One entry of the launcher version manifest (absent or non-text fields
/// are `None`).
pub struct ManifestEntry {
    pub id: Option<String>,
    pub url: Option<String>,
}

/// The launcher version manifest.
pub struct LauncherManifest {
    pub versions: Option<Vec<ManifestEntry>>,
}

/// `downloads.client_mappings` of a version JSON.
pub struct ClientMappings {
    pub url: Option<String>,
}

/// `downloads` of a version JSON.
pub struct Downloads {
    pub client_mappings: Option<ClientMappings>,
}

/// A version JSON, as far as mappings are concerned.
pub struct VersionJson {
    pub downloads: Option<Downloads>,
}

pub open spec fn text_opt(o: Option<String>) -> Option<Seq<char>> {
    match o {
        Some(s) => Some(s@),
        None => None,
    }
}

pub open spec fn entry_view(e: ManifestEntry) -> (Option<Seq<char>>, Option<Seq<char>>) {
    (text_opt(e.id), text_opt(e.url))
}

/// The `(id, url)` pairs of the entries that have both, in order.
pub open spec fn complete_entries(es: Seq<(Option<Seq<char>>, Option<Seq<char>>)>) -> Seq<(Seq<char>, Seq<char>)>
    decreases es.len(),
{
    if es.len() == 0 {
        Seq::empty()
    } else {
        let rest = complete_entries(es.drop_last());
        match es.last() {
            (Some(id), Some(url)) => rest.push((id, url)),
            _ => rest,
        }
    }
}

pub open spec fn pair_view(p: (String, String)) -> (Seq<char>, Seq<char>) {
    (p.0@, p.1@)
}

/// The `(version id, version JSON url)` pairs of a manifest: the entries with
/// both an id and a url; a manifest without a version list is malformed.
pub fn manifest_entries(m: LauncherManifest) -> (r: Result<Vec<(String, String)>, MappingLoadError>)
    ensures
        match m.versions {
            None => r matches Err(MappingLoadError::Parse(msg)) && msg@ == "malformed launcher manifest"@,
            Some(vs) => r matches Ok(v) && v@.map_values(|p: (String, String)| pair_view(p))
                == complete_entries(vs@.map_values(|e: ManifestEntry| entry_view(e))),
        },
{
    let vs = match m.versions {
        Some(vs) => vs,
        None => return Err(MappingLoadError::Parse("malformed launcher manifest".to_owned())),
    };
    let ghost es = vs@.map_values(|e: ManifestEntry| entry_view(e));
    let mut out: Vec<(String, String)> = Vec::new();
    let mut i: usize = 0;
    assert(es.take(0) =~= Seq::<(Option<Seq<char>>, Option<Seq<char>>)>::empty());
    assert(out@.map_values(|p: (String, String)| pair_view(p)) =~= Seq::<(Seq<char>, Seq<char>)>::empty());
    while i < vs.len()
        invariant
            i <= vs@.len(),
            es == vs@.map_values(|e: ManifestEntry| entry_view(e)),
            out@.map_values(|p: (String, String)| pair_view(p)) == complete_entries(es.take(i as int)),
        decreases vs@.len() - i,
    {
        assert(es.take(i + 1).drop_last() =~= es.take(i as int));
        assert(es.take(i + 1).last() == entry_view(vs@[i as int]));
        let ghost prev = out@.map_values(|p: (String, String)| pair_view(p));
        let e = &vs[i];
        match (&e.id, &e.url) {
            (Some(id), Some(url)) => {
                out.push((id.clone(), url.clone()));
                assert(out@.map_values(|p: (String, String)| pair_view(p)) =~= prev.push((id@, url@)));
            },
            _ => {},
        }
        i = i + 1;
    }
    assert(es.take(i as int) =~= es);
    Ok(out)
}

/// The url of the first pair whose id is the version.
pub open spec fn first_url(entries: Seq<(Seq<char>, Seq<char>)>, version: Seq<char>) -> Option<Seq<char>>
    decreases entries.len(),
{
    if entries.len() == 0 {
        None
    } else if entries[0].0 == version {
        Some(entries[0].1)
    } else {
        first_url(entries.drop_first(), version)
    }
}

/// The version JSON url of a version in the manifest pairs.
pub fn version_url(entries: &Vec<(String, String)>, version: &str) -> (r: Result<String, MappingLoadError>)
    ensures
        match first_url(entries@.map_values(|p: (String, String)| pair_view(p)), version@) {
            Some(u) => r matches Ok(s) && s@ == u,
            None => r matches Err(MappingLoadError::Parse(msg))
                && msg@ == "version not found in launcher manifest"@,
        },
{
    let ghost es = entries@.map_values(|p: (String, String)| pair_view(p));
    let v = chars_of(version);
    let mut i: usize = 0;
    assert(es.subrange(0, es.len() as int) =~= es);
    while i < entries.len()
        invariant
            i <= entries@.len(),
            es == entries@.map_values(|p: (String, String)| pair_view(p)),
            v@ == version@,
            first_url(es, version@) == first_url(es.subrange(i as int, es.len() as int), version@),
        decreases entries@.len() - i,
    {
        let ghost rest = es.subrange(i as int, es.len() as int);
        assert(rest.drop_first() =~= es.subrange(i + 1, es.len() as int));
        assert(rest[0] == pair_view(entries@[i as int]));
        let id = chars_of(entries[i].0.as_str());
        if crate::text::chars_eq(id.as_slice(), v.as_slice()) {
            return Ok(entries[i].1.clone());
        }
        i = i + 1;
    }
    Err(MappingLoadError::Parse("version not found in launcher manifest".to_owned()))
}

/// `downloads.client_mappings.url` of a version JSON.
pub fn client_mappings_url(v: VersionJson) -> (r: Option<String>)
    ensures
        text_opt(r) == (match v.downloads {
            Some(d) => match d.client_mappings {
                Some(c) => text_opt(c.url),
                None => None,
            },
            None => None,
        }),
{
    match v.downloads {
        Some(d) => match d.client_mappings {
            Some(c) => c.url,
            None => None,
        },
        None => None,
    }
}


/// What `downloads.client_mappings.url` a version JSON holds: whether there
/// is `downloads`, then `client_mappings`, then the url when it is a string.
pub open spec fn version_view(v: VersionJson) -> Option<Option<Option<Seq<char>>>> {
    match v.downloads {
        Some(d) => Some(
            match d.client_mappings {
                Some(c) => Some(text_opt(c.url)),
                None => None,
            },
        ),
        None => None,
    }
}

/// The entries of a manifest's `versions` array, if it has one.
pub open spec fn manifest_view(m: LauncherManifest) -> Option<Seq<(Option<Seq<char>>, Option<Seq<char>>)>> {
    match m.versions {
        Some(vs) => Some(vs@.map_values(|e: ManifestEntry| entry_view(e))),
        None => None,
    }
}

/// What `serde_json` reads from the bytes of a launcher JSON document, as far
/// as the library looks at it: the manifest view (`versions` and each
/// element's `id`/`url` strings) and the version view
/// (`downloads.client_mappings.url`); `Err` with `serde_json`'s message when
/// the bytes are not JSON.
pub uninterp spec fn launcher_json(bytes: Seq<u8>) -> Result<
    (Option<Seq<(Option<Seq<char>>, Option<Seq<char>>)>>, Option<Option<Option<Seq<char>>>>),
    Seq<char>,
>;

/// `serde_json::from_slice` into a `serde_json::Value`, with the fields the
/// library reads moved into its plain types.
///
/// Trusted: the result depends on the bytes alone (`launcher_json`); a
/// field that is absent (or `url`/`id` that is not a string) comes out as
/// `None`; a parse error comes out as its `to_string()` message.
#[verifier::external_body]
fn read_launcher_json(bytes: &[u8]) -> (r: Result<(LauncherManifest, VersionJson), String>)
    ensures
        match r {
            Ok((m, v)) => launcher_json(bytes@) matches Ok(doc) && doc == (manifest_view(m), version_view(v)),
            Err(e) => launcher_json(bytes@) matches Err(msg) && msg == e@,
        },
{
    let v: serde_json::Value = serde_json::from_slice(bytes).map_err(|e| e.to_string())?;
    let text = |o: Option<&serde_json::Value>| o.and_then(|x| x.as_str()).map(str::to_string);
    let versions = v.get("versions").and_then(|x| x.as_array()).map(|a| {
        a.iter().map(|e| ManifestEntry { id: text(e.get("id")), url: text(e.get("url")) }).collect()
    });
    let downloads = v.get("downloads").map(|d| Downloads {
        client_mappings: d.get("client_mappings").map(|c| ClientMappings { url: text(c.get("url")) }),
    });
    Ok((LauncherManifest { versions }, VersionJson { downloads }))
}

/// The `(version id, version JSON url)` pairs of launcher manifest bytes:
/// bytes that are not JSON give their parse message, a manifest without a
/// version list is malformed.
pub fn parse_manifest_entries(bytes: &[u8]) -> (r: Result<Vec<(String, String)>, MappingLoadError>)
    ensures
        match launcher_json(bytes@) {
            Err(msg) => r matches Err(MappingLoadError::Parse(m)) && m@ == msg,
            Ok((None, _)) => r matches Err(MappingLoadError::Parse(m)) && m@ == "malformed launcher manifest"@,
            Ok((Some(es), _)) => r matches Ok(v) && v@.map_values(|p: (String, String)| pair_view(p))
                == complete_entries(es),
        },
{
    match read_launcher_json(bytes) {
        Err(e) => Err(MappingLoadError::Parse(e)),
        Ok((m, _)) => manifest_entries(m),
    }
}

/// `downloads.client_mappings.url` of a version JSON's bytes: bytes that are
/// not JSON give their parse message.
pub fn parse_client_mappings_url(bytes: &[u8]) -> (r: Result<Option<String>, MappingLoadError>)
    ensures
        match launcher_json(bytes@) {
            Err(msg) => r matches Err(MappingLoadError::Parse(m)) && m@ == msg,
            Ok((_, d)) => r matches Ok(o) && text_opt(o) == (match d {
                Some(Some(u)) => u,
                _ => None,
            }),
        },
{
    match read_launcher_json(bytes) {
        Err(e) => Err(MappingLoadError::Parse(e)),
        Ok((_, v)) => Ok(client_mappings_url(v)),
    }
}


/// The url picked for a version belongs to an entry whose id is exactly that
/// version, and to the first such entry; when no entry has that id there is
/// no url.
pub proof fn law_first_url_exact_id(entries: Seq<(Seq<char>, Seq<char>)>, version: Seq<char>)
    ensures
        first_url(entries, version) matches Some(u) ==> exists|i: int|
            0 <= i < entries.len() && #[trigger] entries[i] == (version, u) && forall|j: int|
                0 <= j < i ==> entries[j].0 != version,
        first_url(entries, version) is None ==> forall|i: int| 0 <= i < entries.len() ==> entries[i].0 != version,
    decreases entries.len(),
{
    if entries.len() > 0 {
        let rest = entries.drop_first();
        law_first_url_exact_id(rest, version);
        if entries[0].0 == version {
            let u = entries[0].1;
            assert(entries[0] == (version, u));
        } else {
            assert forall|i: int| 0 < i < entries.len() implies entries[i] == rest[i - 1] by {}
            if let Some(u) = first_url(rest, version) {
                let k = choose|k: int| 0 <= k < rest.len() && #[trigger] rest[k] == (version, u) && forall|j: int|
                    0 <= j < k ==> rest[j].0 != version;
                assert(entries[k + 1] == (version, u));
                assert forall|j: int| 0 <= j < k + 1 implies entries[j].0 != version by {
                    if j > 0 {
                        assert(entries[j] == rest[j - 1]);
                    }
                }
            } else {
                assert forall|i: int| 0 <= i < entries.len() implies entries[i].0 != version by {
                    if i > 0 {
                        assert(entries[i] == rest[i - 1]);
                    }
                }
            }
        }
    }
}

} // verus!
