//! The configuration records of the server: where it listens and serves files from,
//! and which paths it forwards to which hosts.

use vstd::prelude::*;
use crate::text::views_of;

verus! {

/// Where the server listens and what it serves.
#[derive(Debug, Clone)]
pub struct Server {
    /// The port to listen on.
    pub port: i32,
    /// The root directory of the site.
    pub root_dir: String,
    /// The directories of static files.
    pub static_dir: Vec<String>,
    /// The extensions of static files.
    pub static_ext: Vec<String>,
}

/// A forwarding rule: requests under `path` go to the hosts of `target`.
#[derive(Debug, Clone)]
pub struct Proxy {
    /// The path prefix that is forwarded.
    pub path: String,
    /// The hosts that requests are forwarded to.
    pub target: Vec<ProxyTarget>,
}

/// A host that requests are forwarded to.
#[derive(Debug, Clone)]
pub struct ProxyTarget {
    /// The address of the host.
    pub url: String,
    /// The weight of the host among the targets of its rule.
    pub weights: i32,
}

/// The whole configuration.
#[derive(Debug, Clone)]
pub struct Config {
    /// A title.
    pub title: String,
    /// The server settings.
    pub server: Server,
    /// The forwarding rules.
    pub proxy: Vec<Proxy>,
    /// Optional settings of the markdown pages.
    pub markdown: Option<Markdown>,
}

/// Settings of the markdown pages.
#[derive(Debug, Clone)]
pub struct Markdown {
    /// The directory of the markdown pages, if given.
    pub dir: Option<String>,
}

/// The contents of a `Server`.
pub struct ServerView {
    pub port: i32,
    pub root_dir: Seq<char>,
    pub static_dir: Seq<Seq<char>>,
    pub static_ext: Seq<Seq<char>>,
}

/// The contents of a `ProxyTarget`.
pub struct ProxyTargetView {
    pub url: Seq<char>,
    pub weights: i32,
}

/// The contents of a `Proxy`.
pub struct ProxyView {
    pub path: Seq<char>,
    pub target: Seq<ProxyTargetView>,
}

/// The contents of a `Config`.
pub struct ConfigView {
    pub title: Seq<char>,
    pub server: ServerView,
    pub proxy: Seq<ProxyView>,
    pub markdown: Option<Option<Seq<char>>>,
}

impl View for Server {
    type V = ServerView;

    open spec fn view(&self) -> ServerView {
        ServerView {
            port: self.port,
            root_dir: self.root_dir@,
            static_dir: views_of(self.static_dir@),
            static_ext: views_of(self.static_ext@),
        }
    }
}

impl View for ProxyTarget {
    type V = ProxyTargetView;

    open spec fn view(&self) -> ProxyTargetView {
        ProxyTargetView { url: self.url@, weights: self.weights }
    }
}

/// The contents of a list of targets.
pub open spec fn target_views(v: Seq<ProxyTarget>) -> Seq<ProxyTargetView> {
    v.map_values(|t: ProxyTarget| t@)
}

impl View for Proxy {
    type V = ProxyView;

    open spec fn view(&self) -> ProxyView {
        ProxyView { path: self.path@, target: target_views(self.target@) }
    }
}

/// The contents of a list of rules.
pub open spec fn proxy_views(v: Seq<Proxy>) -> Seq<ProxyView> {
    v.map_values(|p: Proxy| p@)
}

/// The contents of optional markdown settings.
pub open spec fn markdown_view(m: Option<Markdown>) -> Option<Option<Seq<char>>> {
    match m {
        Some(md) => Some(
            match md.dir {
                Some(d) => Some(d@),
                None => None,
            },
        ),
        None => None,
    }
}

impl View for Config {
    type V = ConfigView;

    open spec fn view(&self) -> ConfigView {
        ConfigView {
            title: self.title@,
            server: self.server@,
            proxy: proxy_views(self.proxy@),
            markdown: markdown_view(self.markdown),
        }
    }
}

/// A copy of a list of strings.
pub fn copy_strings(v: &Vec<String>) -> (r: Vec<String>)
    ensures
        views_of(r@) == views_of(v@),
{
    let mut r: Vec<String> = Vec::new();
    let mut i: usize = 0;
    while i < v.len()
        invariant
            i <= v@.len(),
            views_of(r@) == views_of(v@).take(i as int),
        decreases v@.len() - i,
    {
        let ghost before = r@;
        let c = v[i].clone();
        r.push(c);
        assert(r@ == before.push(c));
        assert(views_of(r@) =~= views_of(before).push(v@[i as int]@));
        assert(views_of(r@) =~= views_of(v@).take(i + 1));
        i = i + 1;
    }
    assert(views_of(v@).take(i as int) =~= views_of(v@));
    r
}

impl Server {
    /// A copy with the same contents.
    pub fn duplicate(&self) -> (r: Self)
        ensures
            r@ == self@,
    {
        Server {
            port: self.port,
            root_dir: self.root_dir.clone(),
            static_dir: copy_strings(&self.static_dir),
            static_ext: copy_strings(&self.static_ext),
        }
    }
}

impl ProxyTarget {
    /// A copy with the same contents.
    pub fn duplicate(&self) -> (r: Self)
        ensures
            r@ == self@,
    {
        ProxyTarget { url: self.url.clone(), weights: self.weights }
    }
}

impl Proxy {
    /// A rule that forwards requests under `p` to the hosts `t`.
    pub fn new(p: &str, t: Vec<ProxyTarget>) -> (r: Self)
        ensures
            r.path@ == p@,
            r.target == t,
    {
        Proxy { path: p.to_owned(), target: t }
    }

    /// A copy with the same contents.
    pub fn duplicate(&self) -> (r: Self)
        ensures
            r@ == self@,
    {
        let mut target: Vec<ProxyTarget> = Vec::new();
        let mut i: usize = 0;
        while i < self.target.len()
            invariant
                i <= self.target@.len(),
                target_views(target@) == target_views(self.target@).take(i as int),
            decreases self.target@.len() - i,
        {
            let ghost before = target@;
            let c = self.target[i].duplicate();
            target.push(c);
            assert(target@ == before.push(c));
            assert(target_views(target@) =~= target_views(before).push(self.target@[i as int]@));
            assert(target_views(target@) =~= target_views(self.target@).take(i + 1));
            i = i + 1;
        }
        assert(target_views(self.target@).take(i as int) =~= target_views(self.target@));
        Proxy { path: self.path.clone(), target }
    }
}

impl Config {
    /// A copy with the same contents.
    pub fn duplicate(&self) -> (r: Self)
        ensures
            r@ == self@,
    {
        let mut proxy: Vec<Proxy> = Vec::new();
        let mut i: usize = 0;
        while i < self.proxy.len()
            invariant
                i <= self.proxy@.len(),
                proxy_views(proxy@) == proxy_views(self.proxy@).take(i as int),
            decreases self.proxy@.len() - i,
        {
            let ghost before = proxy@;
            let c = self.proxy[i].duplicate();
            proxy.push(c);
            assert(proxy@ == before.push(c));
            assert(proxy_views(proxy@) =~= proxy_views(before).push(self.proxy@[i as int]@));
            assert(proxy_views(proxy@) =~= proxy_views(self.proxy@).take(i + 1));
            i = i + 1;
        }
        assert(proxy_views(self.proxy@).take(i as int) =~= proxy_views(self.proxy@));
        let markdown = match &self.markdown {
            Some(md) => Some(
                Markdown {
                    dir: match &md.dir {
                        Some(d) => Some(d.clone()),
                        None => None,
                    },
                },
            ),
            None => None,
        };
        Config { title: self.title.clone(), server: self.server.duplicate(), proxy, markdown }
    }
}

/// The file that the configuration is read from: `conf_path`, or `config.toml` when
/// `conf_path` is empty.
pub fn config_file_path(conf_path: &str) -> (r: &str)
    ensures
        r@ == (if conf_path@.len() == 0 { "config.toml"@ } else { conf_path@ }),
{
    if conf_path.is_empty() {
        "config.toml"
    } else {
        conf_path
    }
}

} // verus!
