//! Feed assembly: an ordered result set becomes a syndication channel with
//! one item per object, numbered from one in sort order. Items carry an
//! enclosure (signed URL, byte length as a decimal string, mime type) and a
//! guid equal to the object's key, stable across URL regeneration so feed
//! readers can deduplicate. The channel itself carries only a title.
use vstd::prelude::*;

use crate::search::{FileObject, FileObjectV};
use crate::strutil::{dec_chars, u64_to_string};

verus! {

use vstd::string::{StrSliceExecFns, StringExecFns};

/// One feed item, ready for rendering.
#[derive(Clone, Debug)]
pub struct FeedItem {
    pub title: String,
    pub link: String,
    pub description: String,
    pub author: String,
    pub enclosure_url: String,
    pub enclosure_length: String,
    pub enclosure_mime: Option<String>,
    pub guid: String,
}

/// The assembled feed: a channel title and its items.
#[derive(Clone, Debug)]
pub struct FeedChannel {
    pub title: String,
    pub items: Vec<FeedItem>,
}

/// The title of the `n`-th item (1-based): the channel title, a space, and
/// the number.
pub open spec fn item_title(title: Seq<char>, n: nat) -> Seq<char> {
    title + seq![' '] + dec_chars(n)
}

/// The item that position `n` (1-based) of the result set must carry.
pub open spec fn item_matches(
    it: FeedItem,
    title: Seq<char>,
    author: Seq<char>,
    link: Seq<char>,
    o: FileObjectV,
    n: nat,
) -> bool {
    &&& it.title@ == item_title(title, n)
    &&& it.link@ == link
    &&& it.description@ == Seq::<char>::empty()
    &&& it.author@ == author
    &&& it.enclosure_url@ == o.url
    &&& it.enclosure_length@ == dec_chars(o.length as nat)
    &&& it.enclosure_mime.deep_view() == o.mime_type
    &&& it.guid@ == o.key
}

/// Assembles the feed for an ordered result set: exactly one item per
/// object, titled `"{title} 1"` through `"{title} N"` in order, with the
/// channel-level link, the constant author, the enclosure taken from the
/// object, and the object's key as guid.
pub fn assemble(title: &str, author: &str, public_url: &str, objects: &Vec<FileObject>) -> (c:
    FeedChannel)
    ensures
        c.title@ == title@,
        c.items@.len() == objects@.len(),
        forall|i: int|
            0 <= i < objects@.len() ==> item_matches(
                #[trigger] c.items@[i],
                title@,
                author@,
                public_url@,
                objects@[i]@,
                (i + 1) as nat,
            ),
{
    let mut items: Vec<FeedItem> = Vec::new();
    let mut i: usize = 0;
    while i < objects.len()
        invariant
            i <= objects@.len(),
            items@.len() == i,
            forall|k: int|
                0 <= k < i ==> item_matches(
                    #[trigger] items@[k],
                    title@,
                    author@,
                    public_url@,
                    objects@[k]@,
                    (k + 1) as nat,
                ),
        decreases objects@.len() - i,
    {
        let o = &objects[i];
        let mut t = String::from_str(title);
        t.append(" ");
        let num = u64_to_string((i + 1) as u64);
        t.append(num.as_str());
        proof {
            reveal_strlit(" ");
            assert(" "@ =~= seq![' ']);
            assert(t@ =~= item_title(title@, (i + 1) as nat));
        }
        let mime = match &o.mime_type {
            Some(mt) => Some(mt.clone()),
            None => None,
        };
        items.push(
            FeedItem {
                title: t,
                link: String::from_str(public_url),
                description: String::new(),
                author: String::from_str(author),
                enclosure_url: o.url.clone(),
                enclosure_length: u64_to_string(o.length),
                enclosure_mime: mime,
                guid: o.key.clone(),
            },
        );
        i = i + 1;
    }
    FeedChannel { title: String::from_str(title), items }
}

/// The store client's item type, opaque to the proofs.
#[verifier::external_type_specification]
#[verifier::external_body]
pub struct ExRssItem(rss::Item);

/// What building an `rss::Item` from the given texts yields. Plain struct
/// construction, so a function of the texts alone.
pub uninterp spec fn rss_item_of(
    title: Seq<char>,
    link: Seq<char>,
    description: Seq<char>,
    author: Seq<char>,
    enclosure_url: Seq<char>,
    enclosure_length: Seq<char>,
    enclosure_mime: Option<Seq<char>>,
    guid: Seq<char>,
) -> rss::Item;

/// The `rss::Item` a feed item renders to.
pub open spec fn rss_item_view(it: FeedItem) -> rss::Item {
    rss_item_of(
        it.title@,
        it.link@,
        it.description@,
        it.author@,
        it.enclosure_url@,
        it.enclosure_length@,
        it.enclosure_mime.deep_view(),
        it.guid@,
    )
}

/// What the syndication library's XML writer produces for a channel with
/// the given title and items.
pub uninterp spec fn rss_xml_of(title: Seq<char>, items: Seq<rss::Item>) -> Seq<char>;

/// Relies on `rss::Item`, `rss::Enclosure` and `rss::Guid`: moving the
/// given texts into a fresh item is deterministic in those texts.
#[verifier::external_body]
fn make_rss_item(it: &FeedItem) -> (r: rss::Item)
    ensures
        r == rss_item_of(
            it.title@,
            it.link@,
            it.description@,
            it.author@,
            it.enclosure_url@,
            it.enclosure_length@,
            it.enclosure_mime.deep_view(),
            it.guid@,
        ),
{
    let mut enclosure = rss::Enclosure::default();
    enclosure.set_url(it.enclosure_url.clone());
    enclosure.set_length(it.enclosure_length.clone());
    if let Some(m) = &it.enclosure_mime { enclosure.set_mime_type(m.clone()); }
    let mut guid = rss::Guid::default();
    guid.set_value(it.guid.clone());
    let mut item = rss::Item::default();
    item.title = Some(it.title.clone());
    item.link = Some(it.link.clone());
    item.description = Some(it.description.clone());
    item.author = Some(it.author.clone());
    item.enclosure = Some(enclosure);
    item.guid = Some(guid);
    item
}

/// Relies on `rss::ChannelBuilder` and `rss::Channel`'s XML writer: the
/// document written for a channel is a function of its title and items.
#[verifier::external_body]
fn channel_xml(title: &str, items: Vec<rss::Item>) -> (r: String)
    ensures
        r@ == rss_xml_of(title@, items@),
{
    let mut channel: rss::Channel = rss::ChannelBuilder::default().title(title.to_string()).build();
    channel.items = items;
    channel.to_string()
}

/// Renders the assembled feed as the syndication XML document.
pub fn feed_to_xml(feed: &FeedChannel) -> (xml: String)
    ensures
        xml@ == rss_xml_of(
            feed.title@,
            feed.items@.map_values(|it: FeedItem| rss_item_view(it)),
        ),
{
    let mut rss_items: Vec<rss::Item> = Vec::new();
    let mut i: usize = 0;
    while i < feed.items.len()
        invariant
            i <= feed.items@.len(),
            rss_items@ == feed.items@.take(i as int).map_values(|it: FeedItem| rss_item_view(it)),
        decreases feed.items@.len() - i,
    {
        rss_items.push(make_rss_item(&feed.items[i]));
        proof {
            assert(feed.items@.take(i as int + 1).map_values(|it: FeedItem| rss_item_view(it))
                =~= feed.items@.take(i as int).map_values(|it: FeedItem| rss_item_view(it)).push(
                rss_item_view(feed.items@[i as int]),
            ));
        }
        i = i + 1;
    }
    proof {
        assert(feed.items@.take(feed.items@.len() as int) =~= feed.items@);
    }
    channel_xml(feed.title.as_str(), rss_items)
}

/// The feed link minted for a slug, under the public base URL.
pub fn feed_url(public_url: &str, slug: &str) -> (r: String)
    ensures
        r@ == public_url@ + "/gen_feed/"@ + slug@ + "/feed.rss"@,
{
    let mut s = String::from_str(public_url);
    s.append("/gen_feed/");
    s.append(slug);
    s.append("/feed.rss");
    s
}

} // verus!
