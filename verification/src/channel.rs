//! YouTube channels: the channel page URL to list, and the channel page built
//! from what the flat playlist listing reports.

use vstd::prelude::*;
use crate::decimal::{int_text, i64_text};
use crate::download::{ingest_error_text, push_arg, push_args, IngestError};
use crate::ingest::{auth_args_spec, string_views, YtDlp};
use crate::text::{
    is_ws, trim_start, trim_end, strips, chars_of, chars_eq, ends_with, ends_with_exec, push_all, rfind, rfind_exec, lemma_rfind_bounds,
    string_of, strip_both, strip_both_vec, strip_end, strip_end_vec, subvec, trim, trim_vec, Strip,
};

verus! {

/// Videos asked for per page.
pub const PAGE_SIZE: i64 = 10;

/// A channel's profile.
#[derive(Debug, Clone)]
pub struct ChannelInfo {
    pub channel_id: String,
    pub title: String,
    pub url: String,
    pub avatar: Option<String>,
    pub description: Option<String>,
    pub follower_count: Option<i64>,
    pub verified: bool,
}

/// One video of a channel listing; its duration is in whole milliseconds.
#[derive(Debug, Clone)]
pub struct ChannelVideo {
    pub id: String,
    pub url: String,
    pub title: String,
    pub duration_ms: Option<u64>,
    pub view_count: Option<i64>,
    pub thumbnail: Option<String>,
    pub live_status: Option<String>,
}

/// One page of a channel listing.
#[derive(Debug, Clone)]
pub struct ChannelPage {
    pub channel: ChannelInfo,
    pub videos: Vec<ChannelVideo>,
    pub page: i64,
    pub has_more: bool,
}

/// A thumbnail as the listing reports it.
#[derive(Debug, Clone)]
pub struct RawThumb {
    pub url: String,
    pub width: Option<i64>,
}

/// A video entry as the listing reports it.
#[derive(Debug, Clone)]
pub struct RawEntry {
    pub id: Option<String>,
    pub url: Option<String>,
    pub title: Option<String>,
    pub duration_ms: Option<u64>,
    pub view_count: Option<i64>,
    pub thumbnails: Option<Vec<RawThumb>>,
    pub live_status: Option<String>,
}

/// The channel listing as reported.
#[derive(Debug, Clone)]
pub struct RawPlaylist {
    pub channel: Option<String>,
    pub channel_id: Option<String>,
    pub uploader: Option<String>,
    pub uploader_url: Option<String>,
    pub channel_url: Option<String>,
    pub description: Option<String>,
    pub channel_follower_count: Option<i64>,
    pub channel_is_verified: Option<bool>,
    pub thumbnails: Option<Vec<RawThumb>>,
    pub title: Option<String>,
    pub entries: Option<Vec<RawEntry>>,
}

pub open spec fn opt_view(o: Option<String>) -> Option<Seq<char>> {
    match o {
        Some(s) => Some(s@),
        None => None,
    }
}

fn clone_opt(o: &Option<String>) -> (r: Option<String>)
    ensures
        opt_view(r) == opt_view(*o),
{
    match o {
        Some(s) => Some(s.clone()),
        None => None,
    }
}

// ---------------------------------------------------------------------------
// Channel URL
// ---------------------------------------------------------------------------

pub open spec fn is_tab_suffix(u: Seq<char>) -> bool {
    ||| ends_with(u, "/videos"@)
    ||| ends_with(u, "/shorts"@)
    ||| ends_with(u, "/streams"@)
    ||| ends_with(u, "/playlists"@)
    ||| ends_with(u, "/about"@)
    ||| ends_with(u, "/community"@)
    ||| ends_with(u, "/channels"@)
    ||| ends_with(u, "/featured"@)
}

/// The channel URL trimmed, without trailing `/`, and ending in a tab:
/// `/videos` is added when it names none of the known tabs.
pub open spec fn channel_videos_url_spec(url: Seq<char>) -> Seq<char> {
    let u = strip_end(trim(url), Strip::Slash);
    if is_tab_suffix(u) {
        u
    } else {
        u + "/videos"@
    }
}

fn ends_with_lit(u: &Vec<char>, lit: &str) -> (r: bool)
    ensures
        r == ends_with(u@, lit@),
{
    let l = chars_of(lit);
    ends_with_exec(u, &l)
}

/// Normalises a channel URL to a tab: see `channel_videos_url_spec`.
pub fn channel_videos_url(url: &str) -> (r: String)
    ensures
        r@ == channel_videos_url_spec(url@),
{
    let v = chars_of(url);
    let t = trim_vec(&v);
    let mut u = strip_end_vec(&t, Strip::Slash);
    if ends_with_lit(&u, "/videos") || ends_with_lit(&u, "/shorts") || ends_with_lit(&u, "/streams")
        || ends_with_lit(&u, "/playlists") || ends_with_lit(&u, "/about") || ends_with_lit(
        &u,
        "/community",
    ) || ends_with_lit(&u, "/channels") || ends_with_lit(&u, "/featured") {
        string_of(u.as_slice())
    } else {
        let tail = chars_of("/videos");
        push_all(&mut u, &tail);
        string_of(u.as_slice())
    }
}

// ---------------------------------------------------------------------------
// Thumbnails
// ---------------------------------------------------------------------------

pub type ThumbModel = (Seq<char>, Option<i64>);

pub open spec fn thumb_models(v: Seq<RawThumb>) -> Seq<ThumbModel> {
    v.map_values(|t: RawThumb| (t.url@, t.width))
}

/// A thumbnail's width, 0 when unknown.
pub open spec fn thumb_width(t: ThumbModel) -> i64 {
    match t.1 {
        Some(w) => w,
        None => 0,
    }
}

/// The index of the widest of the first `m` thumbnails; the last one among
/// equally wide ones.
pub open spec fn widest_index(ts: Seq<ThumbModel>, m: int) -> int
    decreases m,
{
    if m <= 1 {
        0
    } else {
        let b = widest_index(ts, m - 1);
        if thumb_width(ts[m - 1]) >= thumb_width(ts[b]) {
            m - 1
        } else {
            b
        }
    }
}

/// The URL of the widest thumbnail (the last of equally wide ones); `None`
/// without thumbnails.
pub open spec fn widest_spec(ts: Option<Seq<ThumbModel>>) -> Option<Seq<char>> {
    match ts {
        Some(ts) => if ts.len() > 0 {
            Some(ts[widest_index(ts, ts.len() as int)].0)
        } else {
            None
        },
        None => None,
    }
}

pub open spec fn opt_thumbs(o: Option<Vec<RawThumb>>) -> Option<Seq<ThumbModel>> {
    match o {
        Some(v) => Some(thumb_models(v@)),
        None => None,
    }
}

proof fn lemma_widest_index_bounds(ts: Seq<ThumbModel>, m: int)
    requires
        m >= 1,
    ensures
        0 <= widest_index(ts, m) < m,
    decreases m,
{
    if m > 1 {
        lemma_widest_index_bounds(ts, m - 1);
    }
}

/// The channel avatar: see `widest_spec`.
pub fn widest(thumbs: &Option<Vec<RawThumb>>) -> (r: Option<String>)
    ensures
        opt_view(r) == widest_spec(opt_thumbs(*thumbs)),
{
    match thumbs {
        None => None,
        Some(ts) => {
            if ts.len() == 0 {
                return None;
            }
            let ghost tm = thumb_models(ts@);
            let mut best: usize = 0;
            let mut i: usize = 1;
            while i < ts.len()
                invariant
                    1 <= i <= ts.len(),
                    tm == thumb_models(ts@),
                    best as int == widest_index(tm, i as int),
                    best < i,
                decreases ts.len() - i,
            {
                let wi = match ts[i].width {
                    Some(w) => w,
                    None => 0,
                };
                let wb = match ts[best].width {
                    Some(w) => w,
                    None => 0,
                };
                assert(thumb_width(tm[i as int]) == wi);
                assert(thumb_width(tm[best as int]) == wb);
                if wi >= wb {
                    best = i;
                }
                i += 1;
            }
            Some(ts[best].url.clone())
        },
    }
}

/// The first thumbnail at least 320 wide, from `i` on.
pub open spec fn first_wide(ts: Seq<ThumbModel>, i: int) -> Option<int>
    decreases ts.len() - i,
{
    if i < 0 || i >= ts.len() {
        None
    } else if thumb_width(ts[i]) >= 320 {
        Some(i)
    } else {
        first_wide(ts, i + 1)
    }
}

/// A video's cover: the first thumbnail at least 320 wide, else the first.
pub open spec fn entry_thumb_spec(ts: Option<Seq<ThumbModel>>) -> Option<Seq<char>> {
    match ts {
        Some(ts) => match first_wide(ts, 0) {
            Some(i) => Some(ts[i].0),
            None => if ts.len() > 0 {
                Some(ts[0].0)
            } else {
                None
            },
        },
        None => None,
    }
}

/// A video's cover: see `entry_thumb_spec`.
pub fn entry_thumb(thumbs: &Option<Vec<RawThumb>>) -> (r: Option<String>)
    ensures
        opt_view(r) == entry_thumb_spec(opt_thumbs(*thumbs)),
{
    match thumbs {
        None => None,
        Some(ts) => {
            let ghost tm = thumb_models(ts@);
            let mut i: usize = 0;
            while i < ts.len()
                invariant
                    i <= ts.len(),
                    tm == thumb_models(ts@),
                    opt_thumbs(*thumbs) == Some(tm),
                    first_wide(tm, 0) == first_wide(tm, i as int),
                decreases ts.len() - i,
            {
                let w = match ts[i].width {
                    Some(w) => w,
                    None => 0,
                };
                assert(thumb_width(tm[i as int]) == w);
                if w >= 320 {
                    assert(first_wide(tm, i as int) == Some(i as int));
                    assert(tm[i as int].0 == ts@[i as int].url@);
                    return Some(ts[i].url.clone());
                }
                i += 1;
            }
            if ts.len() > 0 {
                Some(ts[0].url.clone())
            } else {
                None
            }
        },
    }
}

// ---------------------------------------------------------------------------
// Channel id
// ---------------------------------------------------------------------------

/// The part after the last `/channel/`, without surrounding `/`; `None` when
/// there is no `/channel/` or nothing follows it.
pub open spec fn extract_channel_id_spec(url: Seq<char>) -> Option<Seq<char>> {
    match rfind(url, "/channel/"@) {
        Some(i) => {
            let id = strip_both(url.skip(i + "/channel/"@.len()), Strip::Slash);
            if id.len() > 0 {
                Some(id)
            } else {
                None
            }
        },
        None => None,
    }
}

/// Reads a channel id from a `/channel/UC...` URL: see
/// `extract_channel_id_spec`.
pub fn extract_channel_id(url: &str) -> (r: Option<String>)
    ensures
        opt_view(r) == extract_channel_id_spec(url@),
{
    let u = chars_of(url);
    let pat = chars_of("/channel/");
    match rfind_exec(&u, &pat) {
        None => None,
        Some(i) => {
            proof {
                lemma_rfind_bounds(u@, pat@, u@.len() - pat@.len());
                assert(rfind(u@, pat@) == crate::text::rfind_upto(u@, pat@, u@.len() - pat@.len()));
            }
            let rest = subvec(&u, i + pat.len(), u.len());
            assert(rest@ == u@.skip(i + pat@.len()));
            let id = strip_both_vec(&rest, Strip::Slash);
            if id.len() > 0 {
                Some(string_of(id.as_slice()))
            } else {
                None
            }
        },
    }
}


// ---------------------------------------------------------------------------
// Channel page
// ---------------------------------------------------------------------------

/// `str::trim_end_matches` with a string: the suffix removed as often as it
/// ends the text.
pub open spec fn strip_suffix_repeat(s: Seq<char>, p: Seq<char>) -> Seq<char>
    decreases s.len(),
{
    if p.len() > 0 && ends_with(s, p) {
        strip_suffix_repeat(s.take(s.len() - p.len()), p)
    } else {
        s
    }
}

fn strip_suffix_repeat_exec(s: &Vec<char>, p: &Vec<char>) -> (r: Vec<char>)
    ensures
        r@ == strip_suffix_repeat(s@, p@),
{
    let mut t = subvec(s, 0, s.len());
    assert(t@ == s@);
    if p.len() == 0 {
        return t;
    }
    loop
        invariant
            p.len() > 0,
            strip_suffix_repeat(t@, p@) == strip_suffix_repeat(s@, p@),
        decreases t.len(),
    {
        if !ends_with_exec(&t, p) {
            return t;
        }
        t = subvec(&t, 0, t.len() - p.len());
    }
}

/// The channel's name: `channel`, else `uploader`, else the listing title
/// without its " - Videos" ending (trimmed), else "未知频道".
pub open spec fn channel_title_spec(channel: Option<Seq<char>>, uploader: Option<Seq<char>>, title: Option<Seq<char>>) -> Seq<char> {
    match channel {
        Some(c) => c,
        None => match uploader {
            Some(u) => u,
            None => match title {
                Some(t) => trim(strip_suffix_repeat(t, " - Videos"@)),
                None => "未知频道"@,
            },
        },
    }
}

/// The channel's URL: `channel_url`, else `uploader_url`, else the URL asked.
pub open spec fn channel_url_spec(channel_url: Option<Seq<char>>, uploader_url: Option<Seq<char>>, url: Seq<char>) -> Seq<char> {
    match channel_url {
        Some(c) => c,
        None => match uploader_url {
            Some(u) => u,
            None => url,
        },
    }
}

/// The subscription key: a non-empty `channel_id`, else the id in a
/// `/channel/` URL, else the channel URL itself.
pub open spec fn channel_id_spec(channel_id: Option<Seq<char>>, ch_url: Seq<char>) -> Seq<char> {
    match channel_id {
        Some(id) if id.len() > 0 => id,
        _ => match extract_channel_id_spec(ch_url) {
            Some(x) => x,
            None => ch_url,
        },
    }
}

/// An entry as values: id, url, title, duration, views, thumbnails, live.
pub type EntryModel = (
    Option<Seq<char>>,
    Option<Seq<char>>,
    Option<Seq<char>>,
    Option<u64>,
    Option<i64>,
    Option<Seq<ThumbModel>>,
    Option<Seq<char>>,
);

/// A video as values: id, url, title, duration, views, cover, live status.
pub type VideoModel = (
    Seq<char>,
    Seq<char>,
    Seq<char>,
    Option<u64>,
    Option<i64>,
    Option<Seq<char>>,
    Option<Seq<char>>,
);

pub open spec fn entry_model(e: RawEntry) -> EntryModel {
    (
        opt_view(e.id),
        opt_view(e.url),
        opt_view(e.title),
        e.duration_ms,
        e.view_count,
        opt_thumbs(e.thumbnails),
        opt_view(e.live_status),
    )
}

pub open spec fn video_model(v: ChannelVideo) -> VideoModel {
    (v.id@, v.url@, v.title@, v.duration_ms, v.view_count, opt_view(v.thumbnail), opt_view(v.live_status))
}

/// The video of an entry: none without an id; the watch URL from the id when
/// no URL is given; an empty title when none is given; the cover as
/// `entry_thumb_spec`; the live status unless it is "not_live".
pub open spec fn video_of(e: EntryModel) -> Option<VideoModel> {
    match e.0 {
        None => None,
        Some(id) => Some(
            (
                id,
                match e.1 {
                    Some(u) => u,
                    None => "https://www.youtube.com/watch?v="@ + id,
                },
                match e.2 {
                    Some(t) => t,
                    None => Seq::empty(),
                },
                e.3,
                e.4,
                entry_thumb_spec(e.5),
                match e.6 {
                    Some(l) => if l != "not_live"@ {
                        Some(l)
                    } else {
                        None
                    },
                    None => None,
                },
            ),
        ),
    }
}

/// The videos of the entries that have an id, in order.
pub open spec fn videos_spec(es: Seq<EntryModel>) -> Seq<VideoModel>
    decreases es.len(),
{
    if es.len() == 0 {
        Seq::empty()
    } else {
        let r = videos_spec(es.drop_last());
        match video_of(es.last()) {
            Some(v) => r.push(v),
            None => r,
        }
    }
}

pub open spec fn entries_of(pl: RawPlaylist) -> Seq<EntryModel> {
    match pl.entries {
        Some(v) => v@.map_values(|e: RawEntry| entry_model(e)),
        None => Seq::empty(),
    }
}

fn entry_video(e: &RawEntry) -> (r: Option<ChannelVideo>)
    ensures
        match r {
            Some(v) => video_of(entry_model(*e)) == Some(video_model(v)),
            None => video_of(entry_model(*e)) is None,
        },
{
    match &e.id {
        None => None,
        Some(id) => {
            let url = match &e.url {
                Some(u) => u.clone(),
                None => {
                    let mut v = chars_of("https://www.youtube.com/watch?v=");
                    let idv = chars_of(id.as_str());
                    push_all(&mut v, &idv);
                    string_of(v.as_slice())
                },
            };
            let title = match &e.title {
                Some(t) => t.clone(),
                None => String::new(),
            };
            let live = match &e.live_status {
                Some(l) => {
                    let lv = chars_of(l.as_str());
                    let nl = chars_of("not_live");
                    if chars_eq(&lv, &nl) {
                        None
                    } else {
                        Some(l.clone())
                    }
                },
                None => None,
            };
            Some(
                ChannelVideo {
                    id: id.clone(),
                    url,
                    title,
                    duration_ms: e.duration_ms,
                    view_count: e.view_count,
                    thumbnail: entry_thumb(&e.thumbnails),
                    live_status: live,
                },
            )
        },
    }
}

/// Builds a channel page from the listing: name, URL and id as
/// `channel_title_spec`, `channel_url_spec` and `channel_id_spec`; the widest
/// thumbnail as avatar; verified only when reported so; the videos as
/// `videos_spec`; more pages are assumed when this one is full.
pub fn channel_page_from(pl: &RawPlaylist, url: &str, page: i64) -> (r: ChannelPage)
    ensures
        r.channel.title@ == channel_title_spec(opt_view(pl.channel), opt_view(pl.uploader), opt_view(pl.title)),
        r.channel.url@ == channel_url_spec(opt_view(pl.channel_url), opt_view(pl.uploader_url), url@),
        r.channel.channel_id@ == channel_id_spec(opt_view(pl.channel_id), r.channel.url@),
        opt_view(r.channel.avatar) == widest_spec(opt_thumbs(pl.thumbnails)),
        opt_view(r.channel.description) == opt_view(pl.description),
        r.channel.follower_count == pl.channel_follower_count,
        r.channel.verified == (pl.channel_is_verified == Some(true)),
        r.videos@.map_values(|v: ChannelVideo| video_model(v)) == videos_spec(entries_of(*pl)),
        r.page == page,
        r.has_more == (r.videos.len() >= 10),
{
    let title = match &pl.channel {
        Some(c) => c.clone(),
        None => match &pl.uploader {
            Some(u) => u.clone(),
            None => match &pl.title {
                Some(t) => {
                    let tv = chars_of(t.as_str());
                    let suf = chars_of(" - Videos");
                    let st = strip_suffix_repeat_exec(&tv, &suf);
                    let tt = trim_vec(&st);
                    string_of(tt.as_slice())
                },
                None => {
                    let v = chars_of("未知频道");
                    string_of(v.as_slice())
                },
            },
        },
    };
    let ch_url = match &pl.channel_url {
        Some(c) => c.clone(),
        None => match &pl.uploader_url {
            Some(u) => u.clone(),
            None => {
                let v = chars_of(url);
                string_of(v.as_slice())
            },
        },
    };
    let given_id = match &pl.channel_id {
        Some(id) => if !id.as_str().is_empty() {
            Some(id.clone())
        } else {
            None
        },
        None => None,
    };
    let channel_id = match given_id {
        Some(id) => id,
        None => match extract_channel_id(ch_url.as_str()) {
            Some(x) => x,
            None => ch_url.clone(),
        },
    };
    let channel = ChannelInfo {
        channel_id,
        title,
        url: ch_url,
        avatar: widest(&pl.thumbnails),
        description: clone_opt(&pl.description),
        follower_count: pl.channel_follower_count,
        verified: match pl.channel_is_verified {
            Some(v) => v,
            None => false,
        },
    };
    let mut videos: Vec<ChannelVideo> = Vec::new();
    match &pl.entries {
        None => {},
        Some(es) => {
            let ghost em = es@.map_values(|e: RawEntry| entry_model(e));
            let mut i: usize = 0;
            while i < es.len()
                invariant
                    i <= es.len(),
                    em == es@.map_values(|e: RawEntry| entry_model(e)),
                    videos@.map_values(|v: ChannelVideo| video_model(v)) == videos_spec(em.take(i as int)),
                decreases es.len() - i,
            {
                assert(em.take(i + 1).drop_last() == em.take(i as int));
                assert(em.take(i + 1).last() == entry_model(es@[i as int]));
                let ghost v0 = videos@;
                match entry_video(&es[i]) {
                    Some(v) => {
                        videos.push(v);
                        assert(videos@.map_values(|v: ChannelVideo| video_model(v)) =~= v0.map_values(
                            |v: ChannelVideo| video_model(v),
                        ).push(video_model(v)));
                    },
                    None => {},
                }
                i += 1;
            }
            assert(em.take(es.len() as int) == em);
        },
    }
    let has_more = videos.len() >= 10;
    ChannelPage { channel, videos, page, has_more }
}

// ---------------------------------------------------------------------------
// Fetching a page
// ---------------------------------------------------------------------------

/// The page asked for: 1 when not given, and at least 1.
pub fn page_number(page: Option<i64>) -> (r: i64)
    ensures
        r == match page {
            Some(p) => if p >= 1 {
                p
            } else {
                1
            },
            None => 1,
        },
{
    match page {
        Some(p) => if p >= 1 {
            p
        } else {
            1
        },
        None => 1,
    }
}

/// The playlist items of a page: `start-end`, ten per page, counted from 1.
pub open spec fn playlist_items_spec(page: int) -> Seq<char> {
    int_text((page - 1) * 10 + 1) + "-"@ + int_text(page * 10)
}

/// yt-dlp's arguments for a page of a channel: the flat listing as one
/// JSON, no warnings, the page's items, the cookie arguments, the URL.
pub open spec fn channel_fetch_args_spec(page: int, url: Seq<char>, yt: YtDlp) -> Seq<Seq<char>> {
    seq!["--flat-playlist"@, "--dump-single-json"@, "--no-warnings"@, "--playlist-items"@, playlist_items_spec(page)]
        + auth_args_spec(yt) + seq![url]
}

/// Builds the arguments for a page: see `channel_fetch_args_spec`.
pub fn channel_fetch_args(page: i64, url: &str, yt: &YtDlp) -> (r: Vec<String>)
    requires
        1 <= page <= i64::MAX / 10,
    ensures
        string_views(r@) == channel_fetch_args_spec(page as int, url@, *yt),
{
    let mut a: Vec<String> = Vec::new();
    push_arg(&mut a, "--flat-playlist");
    push_arg(&mut a, "--dump-single-json");
    push_arg(&mut a, "--no-warnings");
    push_arg(&mut a, "--playlist-items");
    let mut items = i64_text((page - 1) * 10 + 1);
    crate::text::push_str(&mut items, "-");
    let e = i64_text(page * 10);
    crate::text::push_all(&mut items, &e);
    let ghost a0 = a@;
    a.push(string_of(items.as_slice()));
    assert(string_views(a@) =~= string_views(a0).push(playlist_items_spec(page as int)));
    push_args(&mut a, yt.auth_args());
    push_arg(&mut a, url);
    assert(string_views(a@) =~= channel_fetch_args_spec(page as int, url@, *yt));
    a
}

/// What a failed page fetch says: a missing yt-dlp as such, any other
/// failure after "拉取频道失败: ".
pub fn channel_fetch_error(e: &IngestError) -> (r: String)
    ensures
        r@ == match e {
            IngestError::ToolNotFound(_) => ingest_error_text(*e),
            _ => "拉取频道失败: "@ + ingest_error_text(*e),
        },
{
    let m = e.message();
    match e {
        IngestError::ToolNotFound(_) => m,
        _ => {
            let mut v = chars_of("拉取频道失败: ");
            crate::text::push_str(&mut v, m.as_str());
            string_of(v.as_slice())
        },
    }
}

// ---------------------------------------------------------------------------
// Normalising twice changes nothing
// ---------------------------------------------------------------------------

proof fn lemma_trim_start_first(s: Seq<char>)
    ensures
        trim_start(s).len() > 0 ==> !is_ws(trim_start(s)[0]),
    decreases s.len(),
{
    if s.len() > 0 && is_ws(s[0]) {
        lemma_trim_start_first(s.drop_first());
    }
}

proof fn lemma_trim_end_prefix(s: Seq<char>)
    ensures
        trim_end(s).len() <= s.len(),
        trim_end(s) == s.take(trim_end(s).len() as int),
    decreases s.len(),
{
    if s.len() > 0 && is_ws(s.last()) {
        lemma_trim_end_prefix(s.drop_last());
        assert(s.drop_last().take(trim_end(s).len() as int) == s.take(trim_end(s).len() as int));
    } else {
        assert(s.take(s.len() as int) == s);
    }
}

proof fn lemma_strip_end_prefix(s: Seq<char>, k: Strip)
    ensures
        strip_end(s, k).len() <= s.len(),
        strip_end(s, k) == s.take(strip_end(s, k).len() as int),
    decreases s.len(),
{
    if s.len() > 0 && strips(k, s.last()) {
        lemma_strip_end_prefix(s.drop_last(), k);
        assert(s.drop_last().take(strip_end(s, k).len() as int) == s.take(strip_end(s, k).len() as int));
    } else {
        assert(s.take(s.len() as int) == s);
    }
}

/// A URL that ends in a tab ends in a letter.
proof fn lemma_tab_suffix_last(u: Seq<char>)
    requires
        is_tab_suffix(u),
    ensures
        u.len() > 0,
        !is_ws(u.last()),
        u.last() != '/',
{
    reveal_strlit("/videos");
    reveal_strlit("/shorts");
    reveal_strlit("/streams");
    reveal_strlit("/playlists");
    reveal_strlit("/about");
    reveal_strlit("/community");
    reveal_strlit("/channels");
    reveal_strlit("/featured");
    if ends_with(u, "/videos"@) {
        assert(u.last() == u.skip(u.len() - 7)[6]);
    } else if ends_with(u, "/shorts"@) {
        assert(u.last() == u.skip(u.len() - 7)[6]);
    } else if ends_with(u, "/streams"@) {
        assert(u.last() == u.skip(u.len() - 8)[7]);
    } else if ends_with(u, "/playlists"@) {
        assert(u.last() == u.skip(u.len() - 10)[9]);
    } else if ends_with(u, "/about"@) {
        assert(u.last() == u.skip(u.len() - 6)[5]);
    } else if ends_with(u, "/community"@) {
        assert(u.last() == u.skip(u.len() - 10)[9]);
    } else if ends_with(u, "/channels"@) {
        assert(u.last() == u.skip(u.len() - 9)[8]);
    } else {
        assert(u.last() == u.skip(u.len() - 9)[8]);
    }
}

/// A text that starts and ends with what is neither white space nor `/`
/// is left as it is by the first normalising steps.
proof fn lemma_normal_fixed(u: Seq<char>)
    requires
        u.len() > 0,
        !is_ws(u[0]),
        !is_ws(u.last()),
        u.last() != '/',
    ensures
        strip_end(trim(u), Strip::Slash) == u,
{
    assert(trim_start(u) == u);
    assert(trim_end(u) == u);
}

/// Normalising a channel URL twice gives what normalising it once gives.
pub proof fn lemma_channel_videos_url_idempotent(url: Seq<char>)
    ensures
        channel_videos_url_spec(channel_videos_url_spec(url)) == channel_videos_url_spec(url),
{
    let t = trim(url);
    let u = strip_end(t, Strip::Slash);
    lemma_trim_start_first(url);
    lemma_trim_end_prefix(trim_start(url));
    lemma_strip_end_prefix(t, Strip::Slash);
    if u.len() > 0 {
        assert(u[0] == t[0]);
        assert(t[0] == trim_start(url)[0]);
    }
    let r = channel_videos_url_spec(url);
    if is_tab_suffix(u) {
        lemma_tab_suffix_last(u);
        lemma_normal_fixed(u);
    } else {
        reveal_strlit("/videos");
        let w = u + "/videos"@;
        assert(ends_with(w, "/videos"@)) by {
            assert(w.skip(w.len() - 7) =~= "/videos"@);
        }
        lemma_tab_suffix_last(w);
        if u.len() > 0 {
            assert(w[0] == u[0]);
        } else {
            assert(w[0] == '/');
        }
        lemma_normal_fixed(w);
    }
}

/// The subscription key is never empty when the channel's URL is not: a
/// given id is used only when non-empty, an id taken from the URL is
/// non-empty, and the URL itself is the last resort.
pub proof fn lemma_channel_id_nonempty(channel_id: Option<Seq<char>>, ch_url: Seq<char>)
    requires
        ch_url.len() > 0,
    ensures
        channel_id_spec(channel_id, ch_url).len() > 0,
{
}

} // verus!
