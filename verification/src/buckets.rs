//! Buckets in the replicated metadata store.
use crate::disk::BucketMeta;
use crate::errors::{StorageError, StorageResult};
use crate::metadata::{bucket_key, BatchPlan, ReplicatedMetaStore};
use crate::text::{join3, owned, text_of_bytes};
use vstd::prelude::*;

verus! {

use crate::metadata::{bucket_key_of, healthy, put_pairs, texts};
use crate::text::lossy_text;
use vstd::utf8::encode_utf8;

/// Whether reading a bucket's key says that the bucket is there. `read` is what the read gave.
pub fn bucket_exists(read: &StorageResult<Vec<u8>>) -> (r: StorageResult<bool>)
    ensures
        r is Ok <==> (read matches Err(e) ==> e is NotFound),
        r matches Ok(b) ==> b == (read is Ok),
        r matches Err(e) ==> *read == StorageResult::<Vec<u8>>::Err(e),
{
    match read {
        Ok(_) => Ok(true),
        Err(StorageError::NotFound(_)) => Ok(false),
        Err(e) => Err(e.clone()),
    }
}

impl ReplicatedMetaStore {
    /// Plan creating a bucket entry. `read` is what reading the bucket's key gave.
    pub fn create_bucket(&self, name: &str, created_at: &str, read: &StorageResult<Vec<u8>>) -> (r:
        StorageResult<BatchPlan>)
        ensures
            r is Ok <==> (read matches Err(e) && e is NotFound) && healthy(self@).len() > 0,
            r matches Ok(plan) ==> plan.targets@ == healthy(self@) && plan.deletes@.len() == 0
                && put_pairs(plan.puts@) == seq![
                (bucket_key_of(name@), encode_utf8(created_at@)),
            ],
            r matches Err(e) ==> match read {
                Ok(_) => e matches StorageError::BucketAlreadyExists(n) && n@ == name@,
                Err(c) => if c is NotFound {
                    e is NoHealthyDisks
                } else {
                    e == c
                },
            },
    {
        match bucket_exists(read) {
            Ok(true) => {
                return Err(StorageError::BucketAlreadyExists(owned(name)));
            },
            Ok(false) => {},
            Err(e) => {
                return Err(e);
            },
        }
        let data = created_at.as_bytes_vec();
        let mut ops: Vec<(String, Vec<u8>)> = Vec::new();
        ops.push((bucket_key(name), data));
        assert(put_pairs(ops@) =~= seq![(bucket_key_of(name@), encode_utf8(created_at@))]);
        self.write_batch(ops)
    }

    /// The bucket that reading its key gave.
    pub fn read_bucket(&self, name: &str, read: &StorageResult<Vec<u8>>) -> (r: StorageResult<
        BucketMeta,
    >)
        ensures
            r is Ok <==> read is Ok,
            r matches Ok(b) ==> b.name@ == name@ && b.created_at@ == lossy_text(read.unwrap()@),
            // What `create_bucket` writes is read back.
            r matches Ok(b) ==> forall|t: Seq<char>| read.unwrap()@ == #[trigger] encode_utf8(t)
                ==> b.created_at@ == t,
            r matches Err(e) ==> read matches Err(c) && if c is NotFound {
                e matches StorageError::NotFound(m) && m@ == "bucket '"@ + name@ + "'"@
            } else {
                e == c
            },
    {
        match bucket_exists(read) {
            Ok(true) => {},
            Ok(false) => {
                return Err(StorageError::NotFound(join3("bucket '", name, "'")));
            },
            Err(e) => {
                return Err(e);
            },
        }
        match read {
            Ok(value) => Ok(
                BucketMeta { name: owned(name), created_at: text_of_bytes(value.as_slice()) },
            ),
            Err(e) => Err(e.clone()),
        }
    }

    /// Plan deleting a bucket entry. Only the bucket's own entry is removed.
    pub fn delete_bucket(&self, name: &str) -> (r: StorageResult<BatchPlan>)
        ensures
            r is Ok <==> healthy(self@).len() > 0,
            r matches Ok(plan) ==> plan.targets@ == healthy(self@) && plan.puts@.len() == 0
                && texts(plan.deletes@) == seq![bucket_key_of(name@)],
            r matches Err(e) ==> e is NoHealthyDisks,
    {
        let mut keys: Vec<String> = Vec::new();
        keys.push(bucket_key(name));
        assert(texts(keys@) =~= seq![bucket_key_of(name@)]);
        self.delete_keys(keys)
    }
}

} // verus!
