//! The native-plugin protocol: decoding the init-time `"name,icon"` info
//! string, and scanning the sentinel-terminated handle array a plugin's
//! query returns. The host performs the dynamic loading and the calls
//! across the library boundary; the protocol rules live here.

use vstd::prelude::*;

use crate::interface::{SearchItemHandle, SearcherInfo, TERMINATOR_HANDLE};

verus! {

/// Decode an init-time info string: the part before the first comma is the
/// plugin's display name, everything after it (further commas included) is
/// the icon identifier. A string without a comma cannot be decoded.
pub fn parse_plugin_info(info: &str) -> (r: Option<(String, String)>)
    ensures
        match r {
            Some(p) => exists|i: int|
                {
                    &&& 0 <= i < info@.len()
                    &&& info@[i] == ','
                    &&& forall|j: int| 0 <= j < i ==> info@[j] != ','
                    &&& p.0@ == info@.take(i)
                    &&& p.1@ == info@.skip(i + 1)
                },
            None => forall|i: int| 0 <= i < info@.len() ==> info@[i] != ',',
        },
{
    let n: usize = info.unicode_len();
    let mut i: usize = 0;
    while i < n
        invariant
            i <= n,
            n == info@.len(),
            forall|j: int| 0 <= j < i ==> info@[j] != ',',
        decreases n - i,
    {
        if info.get_char(i) == ',' {
            let name = info.substring_char(0, i).to_owned();
            let icon = info.substring_char(i + 1, n).to_owned();
            proof {
                assert(info@.subrange(0, i as int) =~= info@.take(i as int));
                assert(info@.subrange(i + 1, n as int) =~= info@.skip(i + 1));
            }
            return Some((name, icon));
        }
        i = i + 1;
    }
    None
}

/// The host-side identity of a bound native plugin: the descriptor decoded
/// from its info string. The bound library itself stays with the host; the
/// plugin's handles flow through [`scan_handles`].
pub struct PluginModule {
    plug_name: String,
    plug_icon: String,
}

impl PluginModule {
    /// The plugin's display name.
    pub closed spec fn name_view(&self) -> Seq<char> {
        self.plug_name@
    }

    /// The plugin's icon identifier.
    pub closed spec fn icon_view(&self) -> Seq<char> {
        self.plug_icon@
    }

    /// Bind a plugin's identity from its decoded info string; a string
    /// without a comma is rejected, and the caller must skip the plugin.
    pub fn from_info(info: &str) -> (r: Option<PluginModule>)
        ensures
            match r {
                Some(m) => exists|i: int|
                    {
                        &&& 0 <= i < info@.len()
                        &&& info@[i] == ','
                        &&& forall|j: int| 0 <= j < i ==> info@[j] != ','
                        &&& m.name_view() == info@.take(i)
                        &&& m.icon_view() == info@.skip(i + 1)
                    },
                None => forall|i: int| 0 <= i < info@.len() ==> info@[i] != ',',
            },
    {
        match parse_plugin_info(info) {
            Some(p) => Some(PluginModule { plug_name: p.0, plug_icon: p.1 }),
            None => None,
        }
    }

    /// The plugin's descriptor.
    pub fn mod_info(&self) -> (info: SearcherInfo)
        ensures
            info.name@ == self.name_view(),
            info.icon@ == self.icon_view(),
    {
        SearcherInfo { name: self.plug_name.clone(), icon: self.plug_icon.clone() }
    }
}

/// Scan a handle array copied from a native plugin: the result holds
/// exactly the handles before the first sentinel, in order. A host must
/// never read past the sentinel; when no sentinel is present (a protocol
/// breach by the plugin) the whole buffer is taken.
pub fn scan_handles(buf: &Vec<i32>) -> (res: Vec<SearchItemHandle>)
    ensures
        res@.len() <= buf@.len(),
        forall|k: int| 0 <= k < res@.len() ==> (#[trigger] res@[k]).0 == buf@[k],
        forall|k: int| 0 <= k < res@.len() ==> #[trigger] buf@[k] != TERMINATOR_HANDLE,
        res@.len() < buf@.len() ==> buf@[res@.len() as int] == TERMINATOR_HANDLE,
{
    let mut res: Vec<SearchItemHandle> = Vec::new();
    let mut i: usize = 0;
    while i < buf.len()
        invariant
            i <= buf@.len(),
            res@.len() == i,
            forall|k: int| 0 <= k < i ==> (#[trigger] res@[k]).0 == buf@[k],
            forall|k: int| 0 <= k < i ==> #[trigger] buf@[k] != TERMINATOR_HANDLE,
        decreases buf@.len() - i,
    {
        let h: i32 = buf[i];
        if h == TERMINATOR_HANDLE {
            return res;
        }
        res.push(SearchItemHandle(h));
        i = i + 1;
    }
    res
}

/// Handle terminator law: when the buffer holds a sentinel at all, a scan
/// that returned `k` handles read the sentinel on read `k + 1` — it stands
/// immediately after the returned handles, and nowhere before.
pub proof fn lemma_terminator_within_k_plus_one(buf: Seq<i32>, res: Seq<SearchItemHandle>)
    requires
        res.len() <= buf.len(),
        forall|k: int| 0 <= k < res.len() ==> (#[trigger] res[k]).0 == buf[k],
        forall|k: int| 0 <= k < res.len() ==> #[trigger] buf[k] != TERMINATOR_HANDLE,
        res.len() < buf.len() ==> buf[res.len() as int] == TERMINATOR_HANDLE,
        exists|t: int| 0 <= t < buf.len() && buf[t] == TERMINATOR_HANDLE,
    ensures
        res.len() < buf.len(),
        buf[res.len() as int] == TERMINATOR_HANDLE,
        forall|j: int| 0 <= j < res.len() ==> #[trigger] buf[j] != TERMINATOR_HANDLE,
{
    if res.len() == buf.len() {
        let t = choose|t: int| 0 <= t < buf.len() && buf[t] == TERMINATOR_HANDLE;
        assert(buf[t] != TERMINATOR_HANDLE);
    }
}

} // verus!
