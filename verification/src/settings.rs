//! What the server was asked to do, as the command line gives it.

use crate::banner::Host;
use crate::serve::Caching;
use vstd::prelude::*;

verus! {

/// The port tried first, and the one production mode always uses.
pub const DEFAULT_PORT: u16 = 3030;

/// The command line's options.
pub struct Settings {
    /// `--port`: the port to listen on, if one was given.
    pub port: Option<u16>,
    /// `--host`: the address to listen on.
    pub host: Host,
    /// `--spa`: serve index.html for addresses that match no file.
    pub spa: bool,
    /// `--production`: no live reload, no file lists, kept files checked.
    pub production: bool,
    /// `--no-list`: no file lists, not even with `?list`.
    pub no_list: bool,
    /// `--no-reload`: no watching, no refreshing.
    pub no_reload: bool,
    /// `--poll`: find changes by looking at the files.
    pub poll: bool,
    /// `--cache-assets`: let browsers keep files under /assets/ for a year.
    pub cache_assets: bool,
    /// `--open`: open the address in the browser once the server is up.
    pub open: bool,
    /// `--ignore`: patterns whose changes do not refresh the browser.
    pub ignore: Vec<String>,
}

/// The one port to use, where no other may be tried: the one asked for, and
/// in production 3030 when none was.
pub open spec fn fixed_port(settings: Settings) -> Option<u16> {
    match settings.port {
        Some(port) => Some(port),
        None => if settings.production {
            Some(DEFAULT_PORT)
        } else {
            None
        },
    }
}

impl Settings {
    /// `--production` stands for `--no-reload` and `--no-list`, so the checks
    /// after this need only those two.
    pub fn settle(&mut self)
        ensures
            final(self).no_reload == (old(self).no_reload || old(self).production),
            final(self).no_list == (old(self).no_list || old(self).production),
            final(self).port == old(self).port,
            final(self).host == old(self).host,
            final(self).spa == old(self).spa,
            final(self).production == old(self).production,
            final(self).poll == old(self).poll,
            final(self).cache_assets == old(self).cache_assets,
            final(self).open == old(self).open,
            final(self).ignore@ == old(self).ignore@,
    {
        if self.production {
            self.no_reload = true;
            self.no_list = true;
        }
    }

    /// The ports to try, in order: the one that must be used, where there is
    /// one; otherwise the default and the nine after it, so a busy port moves
    /// the server to the next free one.
    pub fn ports_to_try(&self) -> (ports: Vec<u16>)
        ensures
            match fixed_port(*self) {
                Some(port) => ports@ == seq![port],
                None => ports@ == Seq::new(10, |i: int| (DEFAULT_PORT + i) as u16),
            },
    {
        match self.exact_port() {
            Some(port) => vec![port],
            None => {
                let mut ports: Vec<u16> = Vec::new();
                let mut i: u16 = 0;
                while i < 10
                    invariant
                        i <= 10,
                        ports@ == Seq::new(i as nat, |k: int| (DEFAULT_PORT + k) as u16),
                    decreases 10 - i,
                {
                    ports.push(DEFAULT_PORT + i);
                    i = i + 1;
                }
                ports
            },
        }
    }

    /// Whether the banner goes up before the watch goes on. While polling the
    /// address goes up first: the first look reads every file, which on the
    /// folders `--poll` is for takes a while, and a browser arriving meanwhile
    /// waits rather than being refused. Otherwise the watch goes on first, so
    /// that a watch which fails does not follow a banner saying live reload
    /// is on.
    pub fn banner_goes_up_first(&self) -> (first: bool)
        ensures
            first == self.poll,
    {
        self.poll
    }

    /// `--cache-assets` keeps files under /assets/ for a year, with or without
    /// `--production`.
    pub fn caching(&self) -> (caching: Caching)
        ensures
            caching == if self.cache_assets {
                Caching::AssetsForAYear
            } else if self.production {
                Caching::Checked
            } else {
                Caching::Off
            },
    {
        if self.cache_assets {
            Caching::AssetsForAYear
        } else if self.production {
            Caching::Checked
        } else {
            Caching::Off
        }
    }

    /// Whether folders get file lists.
    pub fn lists(&self) -> (lists: bool)
        ensures
            lists == !self.no_list,
    {
        !self.no_list
    }

    /// Whether the files are watched for changes.
    pub fn watches(&self) -> (watches: bool)
        ensures
            watches == !self.no_reload,
    {
        !self.no_reload
    }

    /// The one port to use, where no other may be tried: the one asked for,
    /// and in production 3030 when none was.
    pub fn exact_port(&self) -> (port: Option<u16>)
        ensures
            port == fixed_port(*self),
    {
        match self.port {
            Some(port) => Some(port),
            None => if self.production {
                Some(DEFAULT_PORT)
            } else {
                None
            },
        }
    }
}

} // verus!
