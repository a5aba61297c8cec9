//! Skeleton bookkeeping for skinned 3D models: an index-based node
//! hierarchy, replayable traversal recipes, and the bone and pose sets
//! that are driven by them.

pub mod hierarchy;
pub mod traversal;
pub mod bone_set;
pub mod bone_pose_set;
pub mod instantiable;
