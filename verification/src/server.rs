//! The state every request is served with.
use std::sync::Arc;

use vstd::prelude::*;

use crate::config;
use crate::config::Config;
use crate::proxy::ProxyClient;

verus! {

/// The proxy client and the configuration, shared by all requests.
#[derive(Clone)]
pub struct AppState {
    pub proxy: Arc<ProxyClient>,
    pub config: Arc<Config>,
}

impl AppState {
    /// The state for a configuration, where it passes `Config::validate`;
    /// the proxy forwards to the configuration's upstream.
    pub fn from_config(cfg: Config) -> (r: Result<AppState, String>)
        ensures
            match r {
                Ok(s) => {
                    &&& config::validation_error(cfg.upstream.base_url@, cfg.auth.realm@) == None::<Seq<char>>
                    &&& *s.config == cfg
                    &&& s.proxy.upstream().base_url@ == cfg.upstream.base_url@
                    &&& s.proxy.upstream().domain@ == cfg.upstream.domain@
                    &&& s.proxy.upstream().workstation@ == cfg.upstream.workstation@
                    &&& s.proxy.upstream().connect_timeout_secs == cfg.upstream.connect_timeout_secs
                    &&& s.proxy.upstream().accept_invalid_certs == cfg.upstream.accept_invalid_certs
                },
                Err(e) => config::validation_error(cfg.upstream.base_url@, cfg.auth.realm@) == Some(e@),
            },
    {
        cfg.validate()?;
        let proxy = Arc::new(ProxyClient::new(cfg.upstream.duplicate()));
        Ok(AppState { proxy, config: Arc::new(cfg) })
    }
}

} // verus!
