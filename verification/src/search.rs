//! Object search: turning a bucket listing into the ordered result set that
//! the search page and the feed share. Listing the bucket is I/O and happens
//! outside; this module signs each listed key (a local computation of the
//! store client), drops entries whose signing fails, assigns the fixed audio
//! mime type, and sorts ascending by name. The sort, not the store's
//! enumeration order, is the ordering guarantee.
use vstd::prelude::*;

use crate::strutil::{lemma_lex_le_total, lemma_lex_le_trans, lex_le, str_le};

verus! {

use vstd::multiset::Multiset;

broadcast use vstd::seq_lib::group_to_multiset_ensures;

/// One object as the store lists it: key, byte size, optional entity tag.
#[derive(Clone, Debug)]
pub struct BucketEntry {
    pub key: String,
    pub size: u64,
    pub e_tag: Option<String>,
}

/// Mathematical image of a `BucketEntry`.
#[verifier::ext_equal]
pub struct BucketEntryV {
    pub key: Seq<char>,
    pub size: u64,
    pub e_tag: Option<Seq<char>>,
}

impl View for BucketEntry {
    type V = BucketEntryV;

    open spec fn view(&self) -> BucketEntryV {
        BucketEntryV { key: self.key@, size: self.size, e_tag: self.e_tag.deep_view() }
    }
}

impl DeepView for BucketEntry {
    type V = BucketEntryV;

    open spec fn deep_view(&self) -> BucketEntryV {
        self.view()
    }
}

/// One search result: a listed object enriched with a time-limited signed
/// URL and the fixed mime type.
#[derive(Clone, Debug)]
pub struct FileObject {
    pub name: String,
    pub url: String,
    pub e_tag: Option<String>,
    pub key: String,
    pub length: u64,
    pub mime_type: Option<String>,
}

/// Mathematical image of a `FileObject`.
#[verifier::ext_equal]
pub struct FileObjectV {
    pub name: Seq<char>,
    pub url: Seq<char>,
    pub e_tag: Option<Seq<char>>,
    pub key: Seq<char>,
    pub length: u64,
    pub mime_type: Option<Seq<char>>,
}

impl View for FileObject {
    type V = FileObjectV;

    open spec fn view(&self) -> FileObjectV {
        FileObjectV {
            name: self.name@,
            url: self.url@,
            e_tag: self.e_tag.deep_view(),
            key: self.key@,
            length: self.length,
            mime_type: self.mime_type.deep_view(),
        }
    }
}

impl DeepView for FileObject {
    type V = FileObjectV;

    open spec fn deep_view(&self) -> FileObjectV {
        self.view()
    }
}

/// The result object built from a listed entry and its signed URL.
pub open spec fn obj_of(e: BucketEntryV, url: Seq<char>) -> FileObjectV {
    FileObjectV {
        name: e.key,
        url: url,
        e_tag: e.e_tag,
        key: e.key,
        length: e.size,
        mime_type: Some("audio/mp3"@),
    }
}

/// The result objects for a listing and the per-entry signing outcomes:
/// entries whose signing failed are dropped.
pub open spec fn kept_objs(entries: Seq<BucketEntryV>, urls: Seq<Option<Seq<char>>>) -> Seq<
    FileObjectV,
>
    decreases entries.len(),
{
    if entries.len() == 0 {
        Seq::empty()
    } else {
        let rest = kept_objs(entries.drop_first(), urls.drop_first());
        if urls[0] is Some {
            seq![obj_of(entries[0], urls[0]->0)] + rest
        } else {
            rest
        }
    }
}

/// Ascending by name, lexicographically.
pub open spec fn sorted_by_name(s: Seq<FileObjectV>) -> bool {
    forall|i: int, j: int| 0 <= i < j < s.len() ==> lex_le(s[i].name, s[j].name)
}

proof fn lemma_kept_objs_snoc(
    entries: Seq<BucketEntryV>,
    urls: Seq<Option<Seq<char>>>,
    e: BucketEntryV,
    u: Option<Seq<char>>,
)
    requires
        entries.len() == urls.len(),
    ensures
        kept_objs(entries.push(e), urls.push(u)) == kept_objs(entries, urls) + (if u is Some {
            seq![obj_of(e, u->0)]
        } else {
            Seq::<FileObjectV>::empty()
        }),
    decreases entries.len(),
{
    let tail = if u is Some {
        seq![obj_of(e, u->0)]
    } else {
        Seq::<FileObjectV>::empty()
    };
    if entries.len() == 0 {
        assert(entries.push(e).drop_first() =~= entries);
        assert(urls.push(u).drop_first() =~= urls);
        assert(kept_objs(entries.push(e), urls.push(u)) =~= kept_objs(entries, urls) + tail);
    } else {
        assert(entries.push(e).drop_first() =~= entries.drop_first().push(e));
        assert(urls.push(u).drop_first() =~= urls.drop_first().push(u));
        lemma_kept_objs_snoc(entries.drop_first(), urls.drop_first(), e, u);
        assert(kept_objs(entries.push(e), urls.push(u)) =~= kept_objs(entries, urls) + tail);
    }
}

/// Sorts the result set ascending by name.
fn sort_results(v: Vec<FileObject>) -> (r: Vec<FileObject>)
    ensures
        sorted_by_name(r.deep_view()),
        r.deep_view().to_multiset() == v.deep_view().to_multiset(),
        r.deep_view().len() == v.deep_view().len(),
{
    let mut src = v;
    let mut out: Vec<FileObject> = Vec::new();
    proof {
        assert(out.deep_view().to_multiset().add(src.deep_view().to_multiset()) =~= v.deep_view().to_multiset());
    }
    while src.len() > 0
        invariant
            out.deep_view().to_multiset().add(src.deep_view().to_multiset()) == v.deep_view().to_multiset(),
            out.deep_view().len() + src.deep_view().len() == v.deep_view().len(),
            sorted_by_name(out.deep_view()),
            forall|i: int, j: int|
                0 <= i < out.deep_view().len() && 0 <= j < src.deep_view().len() ==> lex_le(
                    out.deep_view()[i].name,
                    src.deep_view()[j].name,
                ),
        decreases src.len(),
    {
        let mut m: usize = 0;
        let mut k: usize = 1;
        proof {
            lemma_lex_le_total(src.deep_view()[0].name, src.deep_view()[0].name);
        }
        while k < src.len()
            invariant
                src@.len() > 0,
                m < k,
                k <= src@.len(),
                forall|t: int|
                    0 <= t < k ==> lex_le(
                        src.deep_view()[m as int].name,
                        src.deep_view()[t].name,
                    ),
            decreases src@.len() - k,
        {
            let ghost dv = src.deep_view();
            if str_le(&src[k].name, &src[m].name) {
                proof {
                    assert forall|t: int| 0 <= t < k + 1 implies lex_le(
                        dv[k as int].name,
                        dv[t].name,
                    ) by {
                        if t < k {
                            lemma_lex_le_trans(dv[k as int].name, dv[m as int].name, dv[t].name);
                        } else {
                            lemma_lex_le_total(dv[k as int].name, dv[k as int].name);
                        }
                    }
                }
                m = k;
            } else {
                proof {
                    lemma_lex_le_total(dv[m as int].name, dv[k as int].name);
                }
            }
            k = k + 1;
        }
        let ghost src0 = src.deep_view();
        let ghost out0 = out.deep_view();
        let x = src.remove(m);
        out.push(x);
        proof {
            let e = src0[m as int];
            assert(x.deep_view() == e);
            assert(src.deep_view() =~= src0.remove(m as int));
            assert(out.deep_view() =~= out0.push(e));
            assert(src0.remove(m as int).to_multiset() =~= src0.to_multiset().remove(e));
            assert(out0.push(e).to_multiset() =~= out0.to_multiset().insert(e));
            assert(src0.contains(e));
            assert(src0.to_multiset().count(e) > 0);
            assert(out.deep_view().to_multiset().add(src.deep_view().to_multiset())
                =~= out0.to_multiset().add(src0.to_multiset()));
            // the minimum is below everything that remains
            assert forall|i: int, j: int|
                0 <= i < out.deep_view().len() && 0 <= j < src.deep_view().len() implies lex_le(
                out.deep_view()[i].name,
                src.deep_view()[j].name,
            ) by {
                let jj = if j < m { j } else { j + 1 };
                assert(src.deep_view()[j] == src0[jj]);
                if i < out0.len() {
                    assert(lex_le(out0[i].name, src0[jj].name));
                } else {
                    assert(lex_le(e.name, src0[jj].name));
                }
            }
            assert forall|i: int, j: int| 0 <= i < j < out.deep_view().len() implies lex_le(
                out.deep_view()[i].name,
                out.deep_view()[j].name,
            ) by {
                if j < out0.len() {
                } else {
                    assert(out.deep_view()[j] == e);
                    assert(lex_le(out0[i].name, e.name));
                }
            }
        }
    }
    proof {
        assert(src.deep_view().to_multiset().len() == 0);
        assert(src.deep_view().to_multiset() =~= Multiset::<FileObjectV>::empty());
        assert(out.deep_view().to_multiset() =~= v.deep_view().to_multiset());
    }
    out
}

/// Builds the sorted result set from a listing and the per-entry signing
/// outcomes. The result holds exactly the entries whose signing succeeded,
/// as `kept_objs` states, sorted ascending by name.
pub fn build_results(entries: &Vec<BucketEntry>, urls: &Vec<Option<String>>) -> (r: Vec<FileObject>)
    requires
        entries@.len() == urls@.len(),
    ensures
        sorted_by_name(r.deep_view()),
        r.deep_view().to_multiset() == kept_objs(entries.deep_view(), urls.deep_view()).to_multiset(),
        r.deep_view().len() == kept_objs(entries.deep_view(), urls.deep_view()).len(),
{
    let mut picked: Vec<FileObject> = Vec::new();
    let mut i: usize = 0;
    proof {
        assert(entries.deep_view().take(0) =~= Seq::<BucketEntryV>::empty());
        assert(urls.deep_view().take(0) =~= Seq::<Option<Seq<char>>>::empty());
    }
    while i < entries.len()
        invariant
            i <= entries@.len(),
            entries@.len() == urls@.len(),
            picked.deep_view() == kept_objs(
                entries.deep_view().take(i as int),
                urls.deep_view().take(i as int),
            ),
        decreases entries@.len() - i,
    {
        let ghost ev = entries.deep_view();
        let ghost uv = urls.deep_view();
        let ghost p0 = picked.deep_view();
        match &urls[i] {
            Some(u) => {
                let entry = &entries[i];
                let tag = match &entry.e_tag {
                    Some(t) => Some(t.clone()),
                    None => None,
                };
                picked.push(
                    FileObject {
                        name: entry.key.clone(),
                        url: u.clone(),
                        e_tag: tag,
                        key: entry.key.clone(),
                        length: entry.size,
                        mime_type: Some(String::from_str("audio/mp3")),
                    },
                );
                proof {
                    assert(picked.deep_view() =~= p0.push(obj_of(ev[i as int], uv[i as int]->0)));
                }
            },
            None => {},
        }
        proof {
            lemma_kept_objs_snoc(ev.take(i as int), uv.take(i as int), ev[i as int], uv[i as int]);
            assert(ev.take(i as int + 1) =~= ev.take(i as int).push(ev[i as int]));
            assert(uv.take(i as int + 1) =~= uv.take(i as int).push(uv[i as int]));
            assert(picked.deep_view() =~= kept_objs(ev.take(i as int + 1), uv.take(i as int + 1)));
        }
        i = i + 1;
    }
    proof {
        assert(entries.deep_view().take(entries@.len() as int) =~= entries.deep_view());
        assert(urls.deep_view().take(urls@.len() as int) =~= urls.deep_view());
    }
    sort_results(picked)
}

/// The store client's bucket handle, opaque to the proofs.
#[verifier::external_type_specification]
#[verifier::external_body]
pub struct ExBucket(s3::Bucket);

/// Validity window of a signed URL: 24 hours, in seconds.
pub const SIGNED_URL_SECS: u32 = 86400;

/// Relies on `s3::Bucket::presign_get`: computes a time-limited signed GET
/// URL locally from the bucket's credentials, the key, and the clock. The
/// result depends on the clock, so nothing is claimed of it; a failure
/// becomes `None` and the caller drops the entry.
#[verifier::external_body]
fn presign_get_url(bucket: &s3::Bucket, key: &str, expiry_secs: u32) -> (r: Option<String>) {
    match bucket.presign_get(key, expiry_secs, None) {
        Ok(u) => Some(u),
        Err(_) => None,
    }
}

/// Requests a signed URL for every listed entry; `None` marks a signing
/// failure, absorbed later by dropping the entry.
fn sign_urls(bucket: &s3::Bucket, entries: &Vec<BucketEntry>) -> (urls: Vec<Option<String>>)
    ensures
        urls@.len() == entries@.len(),
{
    let mut urls: Vec<Option<String>> = Vec::new();
    let mut i: usize = 0;
    while i < entries.len()
        invariant
            i <= entries@.len(),
            urls@.len() == i,
        decreases entries@.len() - i,
    {
        urls.push(presign_get_url(bucket, entries[i].key.as_str(), SIGNED_URL_SECS));
        i = i + 1;
    }
    urls
}

/// The search operation, given the store's side of the conversation: the
/// bucket handle (if the store is configured) and the listing for the query
/// (if the store answered). A missing handle or listing degrades to an empty
/// result rather than an error; otherwise each listed entry is signed,
/// entries whose signing failed are dropped, and the rest come back sorted
/// ascending by name.
pub fn bucket_search(bucket: Option<&s3::Bucket>, listing: Option<Vec<BucketEntry>>) -> (r: Vec<
    FileObject,
>)
    ensures
        (bucket is None || listing is None) ==> r.deep_view().len() == 0,
        sorted_by_name(r.deep_view()),
        listing matches Some(es) ==> (bucket is None || exists|urls: Seq<Option<Seq<char>>>|
            urls.len() == es@.len() && r.deep_view().to_multiset() == kept_objs(
                es.deep_view(),
                urls,
            ).to_multiset()),
{
    match (bucket, listing) {
        (Some(b), Some(entries)) => {
            let urls = sign_urls(b, &entries);
            let r = build_results(&entries, &urls);
            proof {
                assert(urls.deep_view().len() == entries.deep_view().len());
            }
            r
        },
        _ => {
            let r: Vec<FileObject> = Vec::new();
            proof {
                assert(r.deep_view().len() == 0);
            }
            r
        },
    }
}

} // verus!
