use vstd::prelude::*;

verus! {

/// Smallest accepted buffer and flush size, in bytes.
pub const MIN_SIZE: usize = 1024;

/// Default growth chunk and buffer capacity: 128 KiB.
pub const DEFAULT_BUFFER_SIZE: usize = 131072;

/// Default flush threshold: 16 KiB.
pub const DEFAULT_FLUSH_SIZE: usize = 16384;

/// Default flush interval, in seconds.
pub const DEFAULT_FLUSH_INTERVAL: usize = 5;

/// Default retention, in days.
pub const DEFAULT_EXPIRATION_DAYS: usize = 7;

/// The settings of one store. Out-of-range values given to a setter are
/// ignored and the previous value stays.
pub struct MmapConfig {
    app_key: String,
    is_encrypt: bool,
    buffer_size: usize,
    flush_size: usize,
    flush_interval: usize,
    expiration_days: usize,
}

/// What a configuration holds, as mathematical values.
pub struct ConfigModel {
    pub app_key: Seq<char>,
    pub is_encrypt: bool,
    pub buffer_size: nat,
    pub flush_size: nat,
    pub flush_interval: nat,
    pub expiration_days: nat,
}

impl View for MmapConfig {
    type V = ConfigModel;

    closed spec fn view(&self) -> ConfigModel {
        ConfigModel {
            app_key: self.app_key@,
            is_encrypt: self.is_encrypt,
            buffer_size: self.buffer_size as nat,
            flush_size: self.flush_size as nat,
            flush_interval: self.flush_interval as nat,
            expiration_days: self.expiration_days as nat,
        }
    }
}

impl MmapConfig {
    #[verifier::type_invariant]
    spec fn inv(&self) -> bool {
        &&& self.buffer_size >= MIN_SIZE
        &&& self.flush_size >= MIN_SIZE
        &&& self.flush_interval > 0
        &&& self.expiration_days > 0
    }

    /// Every numeric setting is in its accepted range.
    pub open spec fn wf(&self) -> bool {
        &&& self@.buffer_size >= MIN_SIZE
        &&& self@.flush_size >= MIN_SIZE
        &&& self@.flush_interval > 0
        &&& self@.expiration_days > 0
        &&& self@.buffer_size <= usize::MAX
        &&& self@.flush_size <= usize::MAX
        &&& self@.flush_interval <= usize::MAX
        &&& self@.expiration_days <= usize::MAX
    }

    pub fn new(app_key: &str, is_encrypt: bool) -> (r: MmapConfig)
        ensures
            r.wf(),
            r@.app_key == app_key@,
            r@.is_encrypt == is_encrypt,
            r@.buffer_size == DEFAULT_BUFFER_SIZE,
            r@.flush_size == DEFAULT_FLUSH_SIZE,
            r@.flush_interval == DEFAULT_FLUSH_INTERVAL,
            r@.expiration_days == DEFAULT_EXPIRATION_DAYS,
    {
        MmapConfig {
            app_key: app_key.to_owned(),
            is_encrypt,
            buffer_size: DEFAULT_BUFFER_SIZE,
            flush_size: DEFAULT_FLUSH_SIZE,
            flush_interval: DEFAULT_FLUSH_INTERVAL,
            expiration_days: DEFAULT_EXPIRATION_DAYS,
        }
    }

    pub fn get_app_key(&self) -> (r: &str)
        ensures
            r@ == self@.app_key,
    {
        self.app_key.as_str()
    }

    pub fn set_app_key(&mut self, app_key: &str)
        ensures
            final(self)@ == (ConfigModel { app_key: app_key@, ..old(self)@ }),
    {
        proof {
            use_type_invariant(&*self);
        }
        self.app_key = app_key.to_owned();
    }

    pub fn is_encrypt(&self) -> (r: bool)
        ensures
            r == self@.is_encrypt,
    {
        self.is_encrypt
    }

    pub fn set_is_encrypt(&mut self, is_encrypt: bool)
        ensures
            final(self)@ == (ConfigModel { is_encrypt, ..old(self)@ }),
    {
        proof {
            use_type_invariant(&*self);
        }
        self.is_encrypt = is_encrypt;
    }

    pub fn get_buffer_size(&self) -> (r: usize)
        ensures
            r == self@.buffer_size,
            self.wf(),
    {
        proof {
            use_type_invariant(self);
        }
        self.buffer_size
    }

    /// Accepts sizes of at least 1024 bytes; any other value leaves the
    /// setting unchanged.
    pub fn set_buffer_size(&mut self, buffer_size: usize)
        ensures
            buffer_size >= MIN_SIZE ==> final(self)@ == (ConfigModel {
                buffer_size: buffer_size as nat,
                ..old(self)@
            }),
            buffer_size < MIN_SIZE ==> final(self)@ == old(self)@,
    {
        proof {
            use_type_invariant(&*self);
        }
        if buffer_size >= MIN_SIZE {
            self.buffer_size = buffer_size;
        }
    }

    pub fn get_flush_size(&self) -> (r: usize)
        ensures
            r == self@.flush_size,
    {
        self.flush_size
    }

    /// Accepts sizes from 1024 bytes up to the current buffer size; any other
    /// value leaves the setting unchanged.
    pub fn set_flush_size(&mut self, flush_size: usize)
        ensures
            MIN_SIZE <= flush_size <= old(self)@.buffer_size ==> final(self)@ == (ConfigModel {
                flush_size: flush_size as nat,
                ..old(self)@
            }),
            !(MIN_SIZE <= flush_size <= old(self)@.buffer_size) ==> final(self)@ == old(self)@,
    {
        proof {
            use_type_invariant(&*self);
        }
        if flush_size >= MIN_SIZE && flush_size <= self.buffer_size {
            self.flush_size = flush_size;
        }
    }

    pub fn get_flush_interval(&self) -> (r: usize)
        ensures
            r == self@.flush_interval,
    {
        self.flush_interval
    }

    /// Accepts any positive number of seconds; zero leaves the setting
    /// unchanged.
    pub fn set_flush_interval(&mut self, flush_interval: usize)
        ensures
            flush_interval > 0 ==> final(self)@ == (ConfigModel {
                flush_interval: flush_interval as nat,
                ..old(self)@
            }),
            flush_interval == 0 ==> final(self)@ == old(self)@,
    {
        proof {
            use_type_invariant(&*self);
        }
        if flush_interval > 0 {
            self.flush_interval = flush_interval;
        }
    }

    pub fn get_expiration_days(&self) -> (r: usize)
        ensures
            r == self@.expiration_days,
    {
        self.expiration_days
    }

    /// Accepts any positive number of days; zero leaves the setting unchanged.
    pub fn set_expiration_days(&mut self, expiration_days: usize)
        ensures
            expiration_days > 0 ==> final(self)@ == (ConfigModel {
                expiration_days: expiration_days as nat,
                ..old(self)@
            }),
            expiration_days == 0 ==> final(self)@ == old(self)@,
    {
        proof {
            use_type_invariant(&*self);
        }
        if expiration_days > 0 {
            self.expiration_days = expiration_days;
        }
    }
}

} // verus!
